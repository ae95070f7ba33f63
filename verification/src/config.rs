//! Configuration: the include and exclude globs, the raw per-rule tables as read
//! from `[tool.zorilla]` or `zorilla.toml`, and the typed per-rule projection the
//! rules read.
use vstd::prelude::*;

verus! {

/// Default `ZR004.max_asserts`: anything strictly greater fires the rule.
pub const DEFAULT_ZR004_MAX_ASSERTS: usize = 4;

/// Default `ZR006.max_patches`: anything strictly greater fires the rule.
pub const DEFAULT_ZR006_MAX_PATCHES: usize = 3;

/// Default `ZR008.max_patches`: anything strictly greater fires the rule.
pub const DEFAULT_ZR008_MAX_PATCHES: usize = 3;

/// Default include globs: pytest's idiomatic layouts.
pub open spec fn default_include_spec() -> Seq<Seq<char>> {
    seq!["tests/**/*.py"@, "**/test_*.py"@, "**/*_test.py"@, "**/conftest.py"@]
}

/// Default exclude globs.
pub open spec fn default_exclude_spec() -> Seq<Seq<char>> {
    seq!["**/fixtures/**"@]
}

/// Built-in assertion-helper names for ZR003, matched by a call's final identifier.
pub open spec fn default_helpers_spec() -> Seq<Seq<char>> {
    seq![
        "assertEqual"@,
        "assertNotEqual"@,
        "assertTrue"@,
        "assertFalse"@,
        "assertIs"@,
        "assertIsNot"@,
        "assertIsNone"@,
        "assertIsNotNone"@,
        "assertIn"@,
        "assertNotIn"@,
        "assertIsInstance"@,
        "assertNotIsInstance"@,
        "assertRaises"@,
        "assertRaisesRegex"@,
        "assertWarns"@,
        "assertWarnsRegex"@,
        "assertAlmostEqual"@,
        "assertNotAlmostEqual"@,
        "assertGreater"@,
        "assertGreaterEqual"@,
        "assertLess"@,
        "assertLessEqual"@,
        "assertRegex"@,
        "assertNotRegex"@,
        "assertCountEqual"@,
        "assertListEqual"@,
        "assertTupleEqual"@,
        "assertDictEqual"@,
        "assertSetEqual"@,
        "assertMultiLineEqual"@,
        "assertSequenceEqual"@,
        "fail"@
    ]
}

pub open spec fn strings_view(v: Seq<String>) -> Seq<Seq<char>> {
    v.map_values(|s: String| s@)
}

fn strings_from(lits: &Vec<&'static str>) -> (r: Vec<String>)
    ensures
        strings_view(r@) == lits@.map_values(|s: &'static str| s@),
{
    let mut out: Vec<String> = Vec::new();
    let mut i: usize = 0;
    while i < lits.len()
        invariant
            0 <= i <= lits@.len(),
            strings_view(out@) == lits@.take(i as int).map_values(|s: &'static str| s@),
        decreases lits.len() - i,
    {
        let s = crate::text::string_of(&crate::text::str_chars(lits[i]));
        let ghost before = out@;
        out.push(s);
        proof {
            assert(lits@.take(i + 1) =~= lits@.take(i as int).push(lits@[i as int]));
            assert(out@ == before.push(s));
            assert(strings_view(out@) =~= strings_view(before).push(s@));
            assert(strings_view(out@) =~= lits@.take(i + 1).map_values(|s: &'static str| s@));
        }
        i = i + 1;
    }
    proof {
        assert(lits@.take(lits@.len() as int) =~= lits@);
    }
    out
}

/// The default include globs.
pub fn default_include() -> (r: Vec<String>)
    ensures
        strings_view(r@) == default_include_spec(),
{
    let v = vec!["tests/**/*.py", "**/test_*.py", "**/*_test.py", "**/conftest.py"];
    let r = strings_from(&v);
    assert(v@.map_values(|s: &'static str| s@) =~= default_include_spec());
    r
}

/// The default exclude globs.
pub fn default_exclude() -> (r: Vec<String>)
    ensures
        strings_view(r@) == default_exclude_spec(),
{
    let v = vec!["**/fixtures/**"];
    let r = strings_from(&v);
    assert(v@.map_values(|s: &'static str| s@) =~= default_exclude_spec());
    r
}

/// The built-in ZR003 assertion helpers.
pub fn default_helpers() -> (r: Vec<String>)
    ensures
        strings_view(r@) == default_helpers_spec(),
{
    let v = vec![
        "assertEqual",
        "assertNotEqual",
        "assertTrue",
        "assertFalse",
        "assertIs",
        "assertIsNot",
        "assertIsNone",
        "assertIsNotNone",
        "assertIn",
        "assertNotIn",
        "assertIsInstance",
        "assertNotIsInstance",
        "assertRaises",
        "assertRaisesRegex",
        "assertWarns",
        "assertWarnsRegex",
        "assertAlmostEqual",
        "assertNotAlmostEqual",
        "assertGreater",
        "assertGreaterEqual",
        "assertLess",
        "assertLessEqual",
        "assertRegex",
        "assertNotRegex",
        "assertCountEqual",
        "assertListEqual",
        "assertTupleEqual",
        "assertDictEqual",
        "assertSetEqual",
        "assertMultiLineEqual",
        "assertSequenceEqual",
        "fail"
    ];
    let r = strings_from(&v);
    assert(v@.map_values(|s: &'static str| s@) =~= default_helpers_spec());
    r
}


/// `[rules.ZR001]`, `[rules.ZR002]`, `[rules.ZR007]`: only `enabled`.
#[derive(Debug)]
pub struct RawRuleCommon {
    pub enabled: Option<bool>,
}

/// `[rules.ZR003]`.
#[derive(Debug)]
pub struct RawZr003 {
    pub enabled: Option<bool>,
    pub extra_helpers: Option<Vec<String>>,
}

/// `[rules.ZR004]`.
#[derive(Debug)]
pub struct RawZr004 {
    pub enabled: Option<bool>,
    pub max_asserts: Option<usize>,
}

/// `[rules.ZR005]`.
#[derive(Debug)]
pub struct RawZr005 {
    pub enabled: Option<bool>,
    pub allowed_prefixes: Option<Vec<String>>,
}

/// `[rules.ZR006]`.
#[derive(Debug)]
pub struct RawZr006 {
    pub enabled: Option<bool>,
    pub max_patches: Option<usize>,
}

/// `[rules.ZR008]`.
#[derive(Debug)]
pub struct RawZr008 {
    pub enabled: Option<bool>,
    pub max_patches: Option<usize>,
}

/// The `[rules]` table: one entry per rule code.
#[derive(Debug)]
pub struct RawRules {
    pub zr001: RawRuleCommon,
    pub zr002: RawRuleCommon,
    pub zr003: RawZr003,
    pub zr004: RawZr004,
    pub zr005: RawZr005,
    pub zr006: RawZr006,
    pub zr007: RawRuleCommon,
    pub zr008: RawZr008,
}

impl RawRules {
    /// Every table empty.
    pub fn empty() -> (r: Self)
        ensures
            r.zr001.enabled is None && r.zr002.enabled is None && r.zr003.enabled is None
                && r.zr004.enabled is None && r.zr005.enabled is None && r.zr006.enabled is None
                && r.zr007.enabled is None && r.zr008.enabled is None,
            r.zr003.extra_helpers is None,
            r.zr004.max_asserts is None,
            r.zr005.allowed_prefixes is None,
            r.zr006.max_patches is None,
            r.zr008.max_patches is None,
    {
        RawRules {
            zr001: RawRuleCommon { enabled: None },
            zr002: RawRuleCommon { enabled: None },
            zr003: RawZr003 { enabled: None, extra_helpers: None },
            zr004: RawZr004 { enabled: None, max_asserts: None },
            zr005: RawZr005 { enabled: None, allowed_prefixes: None },
            zr006: RawZr006 { enabled: None, max_patches: None },
            zr007: RawRuleCommon { enabled: None },
            zr008: RawZr008 { enabled: None, max_patches: None },
        }
    }
}

/// The `[tool.zorilla]` section (or a `zorilla.toml`) as read.
#[derive(Debug)]
pub struct RawConfig {
    pub include_globs: Option<Vec<String>>,
    pub exclude: Option<Vec<String>>,
    pub rules: RawRules,
}

/// Effective configuration: the file's globs over the defaults, and its rule tables.
#[derive(Debug)]
pub struct Config {
    pub include_globs: Vec<String>,
    pub exclude: Vec<String>,
    pub rules: RawRules,
}

/// Typed knobs for ZR003.
#[derive(Debug)]
pub struct Zr003Config {
    /// Built-in and configured assertion helper names, each once.
    pub helpers: Vec<String>,
}

/// Typed knobs for ZR004.
#[derive(Debug)]
pub struct Zr004Config {
    pub max_asserts: usize,
}

/// Typed knobs for ZR005.
#[derive(Debug)]
pub struct Zr005Config {
    /// String-literal prefixes that are not mystery guests; never empty strings.
    pub allowed_prefixes: Vec<String>,
}

/// Typed knobs for ZR006.
#[derive(Debug)]
pub struct Zr006Config {
    pub max_patches: usize,
}

/// Typed knobs for ZR008.
#[derive(Debug)]
pub struct Zr008Config {
    pub max_patches: usize,
}

/// Typed per-rule configuration, derived from [`Config`].
#[derive(Debug)]
pub struct RuleConfig {
    /// Codes of the rules switched off with `enabled = false`, in code order.
    pub disabled: Vec<&'static str>,
    pub zr003: Zr003Config,
    pub zr004: Zr004Config,
    pub zr005: Zr005Config,
    pub zr006: Zr006Config,
    pub zr008: Zr008Config,
}

impl Default for Config {
    fn default() -> (r: Self)
        ensures
            strings_view(r.include_globs@) == default_include_spec(),
            strings_view(r.exclude@) == default_exclude_spec(),
            r.rules_are_empty(),
    {
        Config { include_globs: default_include(), exclude: default_exclude(), rules: RawRules::empty() }
    }
}

/// `code` when the rule's `enabled` says `false`, nothing otherwise.
pub open spec fn off(enabled: Option<bool>, code: Seq<char>) -> Seq<Seq<char>> {
    if enabled == Some(false) {
        seq![code]
    } else {
        Seq::empty()
    }
}

/// The codes switched off in `r`, in code order.
pub open spec fn disabled_spec(r: RawRules) -> Seq<Seq<char>> {
    off(r.zr001.enabled, "ZR001"@) + off(r.zr002.enabled, "ZR002"@) + off(r.zr003.enabled, "ZR003"@)
        + off(r.zr004.enabled, "ZR004"@) + off(r.zr005.enabled, "ZR005"@) + off(r.zr006.enabled, "ZR006"@)
        + off(r.zr007.enabled, "ZR007"@) + off(r.zr008.enabled, "ZR008"@)
}

/// The non-empty strings of `v`, in order.
pub open spec fn non_empty(v: Seq<Seq<char>>) -> Seq<Seq<char>>
    decreases v.len(),
{
    if v.len() == 0 {
        Seq::empty()
    } else {
        let prev = non_empty(v.drop_last());
        if v.last().len() > 0 {
            prev.push(v.last())
        } else {
            prev
        }
    }
}

/// Views of an optional list of strings, `[]` when absent.
pub open spec fn opt_strings(v: Option<Vec<String>>) -> Seq<Seq<char>> {
    match v {
        Some(v) => strings_view(v@),
        None => Seq::empty(),
    }
}

impl Config {
    /// No rule table is set.
    pub open spec fn rules_are_empty(&self) -> bool {
        &&& self.rules.zr001.enabled is None && self.rules.zr002.enabled is None
        &&& self.rules.zr003.enabled is None && self.rules.zr004.enabled is None
        &&& self.rules.zr005.enabled is None && self.rules.zr006.enabled is None
        &&& self.rules.zr007.enabled is None && self.rules.zr008.enabled is None
        &&& self.rules.zr003.extra_helpers is None && self.rules.zr004.max_asserts is None
        &&& self.rules.zr005.allowed_prefixes is None && self.rules.zr006.max_patches is None
        &&& self.rules.zr008.max_patches is None
    }

    /// The rule tables as read.
    pub open spec fn raw_rules(&self) -> RawRules {
        self.rules
    }

    /// Configuration from a read section: its globs where set, the defaults where
    /// not, and its rule tables.
    pub fn from_raw(raw: RawConfig) -> (r: Self)
        ensures
            strings_view(r.include_globs@) == match raw.include_globs {
                Some(v) => strings_view(v@),
                None => default_include_spec(),
            },
            strings_view(r.exclude@) == match raw.exclude {
                Some(v) => strings_view(v@),
                None => default_exclude_spec(),
            },
            r.raw_rules() == raw.rules,
    {
        let include_globs = match raw.include_globs {
            Some(v) => v,
            None => default_include(),
        };
        let exclude = match raw.exclude {
            Some(v) => v,
            None => default_exclude(),
        };
        Config { include_globs, exclude, rules: raw.rules }
    }
}


/// Some string of `v` is `x`.
pub open spec fn has_str(v: Seq<String>, x: Seq<char>) -> bool {
    exists|j: int| 0 <= j < v.len() && #[trigger] v[j]@ == x
}

/// Appends `s` to `v` unless an equal string is there already.
fn insert_unique(v: &mut Vec<String>, s: String)
    requires
        strings_view(old(v)@).no_duplicates(),
    ensures
        strings_view(final(v)@).no_duplicates(),
        forall|x: Seq<char>| #[trigger] has_str(final(v)@, x) <==> (has_str(old(v)@, x) || x == s@),
{
    let cs = crate::text::str_chars(s.as_str());
    let mut i: usize = 0;
    while i < v.len()
        invariant
            v@ == old(v)@,
            strings_view(v@).no_duplicates(),
            cs@ == s@,
            0 <= i <= v@.len(),
            forall|j: int| 0 <= j < i ==> #[trigger] v@[j]@ != s@,
        decreases v.len() - i,
    {
        if crate::text::eq_str(&cs, v[i].as_str()) {
            proof {
                assert forall|x: Seq<char>| #[trigger] has_str(v@, x) <==> (has_str(old(v)@, x) || x == s@) by {
                    if x == s@ {
                        assert(v@[i as int]@ == x);
                    }
                }
            }
            return ;
        }
        i = i + 1;
    }
    let ghost before = v@;
    v.push(s);
    proof {
        assert(!has_str(before, s@)) by {
            if has_str(before, s@) {
                let j = choose|j: int| 0 <= j < before.len() && #[trigger] before[j]@ == s@;
                assert(v@[j]@ == s@);
            }
        }
        let after = strings_view(v@);
        assert(after =~= strings_view(before).push(s@));
        assert forall|a: int, b: int| 0 <= a < after.len() && 0 <= b < after.len() && a != b implies after[a] != after[b] by {
            if a < before.len() && b < before.len() {
                assert(strings_view(before)[a] == after[a]);
                assert(strings_view(before)[b] == after[b]);
            } else if a == before.len() {
                assert(before[b]@ == after[b]);
            } else {
                assert(before[a]@ == after[a]);
            }
        }
        assert forall|x: Seq<char>| #[trigger] has_str(v@, x) <==> (has_str(before, x) || x == s@) by {
            if has_str(v@, x) {
                let j = choose|j: int| 0 <= j < v@.len() && #[trigger] v@[j]@ == x;
                if j < before.len() {
                    assert(before[j]@ == x);
                }
            }
            if has_str(before, x) {
                let j = choose|j: int| 0 <= j < before.len() && #[trigger] before[j]@ == x;
                assert(v@[j]@ == x);
            }
            if x == s@ {
                assert(v@[before.len() as int]@ == x);
            }
        }
    }
}

/// Adds every string of `extra` with [`insert_unique`].
fn insert_all(v: &mut Vec<String>, extra: &Vec<String>)
    requires
        strings_view(old(v)@).no_duplicates(),
    ensures
        strings_view(final(v)@).no_duplicates(),
        forall|x: Seq<char>| #[trigger] has_str(final(v)@, x) <==> (has_str(old(v)@, x) || has_str(extra@, x)),
{
    let ghost before = v@;
    let mut i: usize = 0;
    while i < extra.len()
        invariant
            strings_view(v@).no_duplicates(),
            0 <= i <= extra@.len(),
            forall|x: Seq<char>| #[trigger] has_str(v@, x) <==> (has_str(before, x) || has_str(extra@.take(i as int), x)),
        decreases extra.len() - i,
    {
        let ghost prev = v@;
        let item = extra[i].clone();
        insert_unique(v, item);
        proof {
            assert forall|x: Seq<char>| #[trigger] has_str(v@, x) <==> (has_str(before, x) || has_str(extra@.take(i + 1), x)) by {
                let pe = extra@.take(i as int);
                let ne = extra@.take(i + 1);
                assert(has_str(prev, x) <==> (has_str(before, x) || has_str(pe, x)));
                if has_str(ne, x) {
                    let j = choose|j: int| 0 <= j < ne.len() && #[trigger] ne[j]@ == x;
                    if j < i {
                        assert(pe[j]@ == x);
                    }
                }
                if has_str(pe, x) {
                    let j = choose|j: int| 0 <= j < pe.len() && #[trigger] pe[j]@ == x;
                    assert(ne[j]@ == x);
                }
                if x == extra@[i as int]@ {
                    assert(ne[i as int]@ == x);
                }
            }
        }
        i = i + 1;
    }
    proof {
        assert(extra@.take(extra@.len() as int) =~= extra@);
    }
}

/// The non-empty strings of `v`.
fn non_empty_strings(v: &Vec<String>) -> (r: Vec<String>)
    ensures
        strings_view(r@) == non_empty(strings_view(v@)),
{
    broadcast use vstd::string::group_string_axioms;

    let ghost sv = strings_view(v@);
    let mut out: Vec<String> = Vec::new();
    let mut i: usize = 0;
    while i < v.len()
        invariant
            sv == strings_view(v@),
            0 <= i <= v@.len(),
            strings_view(out@) == non_empty(sv.take(i as int)),
        decreases v.len() - i,
    {
        proof {
            assert(sv.take(i + 1).drop_last() =~= sv.take(i as int));
            assert(sv.take(i + 1).last() == v@[i as int]@);
        }
        if v[i].as_str().unicode_len() > 0 {
            let ghost before = out@;
            out.push(v[i].clone());
            proof {
                assert(strings_view(out@) =~= strings_view(before).push(v@[i as int]@));
            }
        }
        i = i + 1;
    }
    proof {
        assert(sv.take(v@.len() as int) =~= sv);
    }
    out
}

/// Pushes `code` onto `v` when `enabled` is `Some(false)`.
fn push_if_off(v: &mut Vec<&'static str>, enabled: Option<bool>, code: &'static str)
    ensures
        final(v)@.map_values(|s: &'static str| s@) == old(v)@.map_values(|s: &'static str| s@) + off(enabled, code@),
{
    let ghost before = v@;
    if enabled == Some(false) {
        v.push(code);
        assert(v@.map_values(|s: &'static str| s@) =~= before.map_values(|s: &'static str| s@) + off(enabled, code@));
    } else {
        assert(v@.map_values(|s: &'static str| s@) =~= before.map_values(|s: &'static str| s@) + off(enabled, code@));
    }
}

impl Config {
    /// The typed per-rule configuration: switched-off codes; the built-in ZR003
    /// helpers together with the configured extras, each once; `max_asserts`,
    /// `max_patches` (ZR006 and ZR008) as configured or their defaults; and the
    /// configured ZR005 prefixes without empty strings.
    pub fn rule_config(&self) -> (r: RuleConfig)
        ensures
            r.disabled@.map_values(|s: &'static str| s@) == disabled_spec(self.raw_rules()),
            strings_view(r.zr003.helpers@).no_duplicates(),
            forall|h: Seq<char>| #[trigger] has_str(r.zr003.helpers@, h) <==> (default_helpers_spec().contains(h)
                || opt_strings(self.raw_rules().zr003.extra_helpers).contains(h)),
            r.zr004.max_asserts == match self.raw_rules().zr004.max_asserts {
                Some(n) => n,
                None => DEFAULT_ZR004_MAX_ASSERTS,
            },
            strings_view(r.zr005.allowed_prefixes@) == non_empty(opt_strings(self.raw_rules().zr005.allowed_prefixes)),
            r.zr006.max_patches == match self.raw_rules().zr006.max_patches {
                Some(n) => n,
                None => DEFAULT_ZR006_MAX_PATCHES,
            },
            r.zr008.max_patches == match self.raw_rules().zr008.max_patches {
                Some(n) => n,
                None => DEFAULT_ZR008_MAX_PATCHES,
            },
    {
        let rules = &self.rules;
        let mut disabled: Vec<&'static str> = Vec::new();
        push_if_off(&mut disabled, rules.zr001.enabled, "ZR001");
        push_if_off(&mut disabled, rules.zr002.enabled, "ZR002");
        push_if_off(&mut disabled, rules.zr003.enabled, "ZR003");
        push_if_off(&mut disabled, rules.zr004.enabled, "ZR004");
        push_if_off(&mut disabled, rules.zr005.enabled, "ZR005");
        push_if_off(&mut disabled, rules.zr006.enabled, "ZR006");
        push_if_off(&mut disabled, rules.zr007.enabled, "ZR007");
        push_if_off(&mut disabled, rules.zr008.enabled, "ZR008");
        proof {
            assert(Seq::<&'static str>::empty().map_values(|s: &'static str| s@) =~= Seq::<Seq<char>>::empty());
        }
        let mut helpers: Vec<String> = Vec::new();
        let defaults = default_helpers();
        proof {
            assert(strings_view(helpers@) =~= Seq::<Seq<char>>::empty());
        }
        insert_all(&mut helpers, &defaults);
        proof {
            assert forall|x: Seq<char>| #[trigger] has_str(helpers@, x) <==> default_helpers_spec().contains(x) by {
                assert(has_str(defaults@, x) <==> strings_view(defaults@).contains(x)) by {
                    if has_str(defaults@, x) {
                        let j = choose|j: int| 0 <= j < defaults@.len() && #[trigger] defaults@[j]@ == x;
                        assert(strings_view(defaults@)[j] == x);
                    }
                    if strings_view(defaults@).contains(x) {
                        let j = choose|j: int| 0 <= j < defaults@.len() && strings_view(defaults@)[j] == x;
                        assert(defaults@[j]@ == x);
                    }
                }
            }
        }
        let ghost base = helpers@;
        match &rules.zr003.extra_helpers {
            Some(extra) => {
                insert_all(&mut helpers, extra);
                proof {
                    assert forall|x: Seq<char>| has_str(extra@, x) <==> strings_view(extra@).contains(x) by {
                        if has_str(extra@, x) {
                            let j = choose|j: int| 0 <= j < extra@.len() && #[trigger] extra@[j]@ == x;
                            assert(strings_view(extra@)[j] == x);
                        }
                        if strings_view(extra@).contains(x) {
                            let j = choose|j: int| 0 <= j < extra@.len() && strings_view(extra@)[j] == x;
                            assert(extra@[j]@ == x);
                        }
                    }
                }
            },
            None => {},
        }
        let max_asserts = match rules.zr004.max_asserts {
            Some(n) => n,
            None => DEFAULT_ZR004_MAX_ASSERTS,
        };
        let allowed_prefixes = match &rules.zr005.allowed_prefixes {
            Some(v) => non_empty_strings(v),
            None => Vec::new(),
        };
        proof {
            if rules.zr005.allowed_prefixes is None {
                assert(strings_view(allowed_prefixes@) =~= non_empty(Seq::<Seq<char>>::empty()));
            }
        }
        let max_patches = match rules.zr006.max_patches {
            Some(n) => n,
            None => DEFAULT_ZR006_MAX_PATCHES,
        };
        let zr008_max_patches = match rules.zr008.max_patches {
            Some(n) => n,
            None => DEFAULT_ZR008_MAX_PATCHES,
        };
        RuleConfig {
            disabled,
            zr003: Zr003Config { helpers },
            zr004: Zr004Config { max_asserts },
            zr005: Zr005Config { allowed_prefixes },
            zr006: Zr006Config { max_patches },
            zr008: Zr008Config { max_patches: zr008_max_patches },
        }
    }
}

/// Keys accepted directly under `[tool.zorilla]` / at the root of `zorilla.toml`.
pub fn top_level_keys() -> (r: Vec<&'static str>)
    ensures
        r@.map_values(|s: &'static str| s@) == seq!["include"@, "exclude"@, "rules"@],
{
    let v = vec!["include", "exclude", "rules"];
    assert(v@.map_values(|s: &'static str| s@) =~= seq!["include"@, "exclude"@, "rules"@]);
    v
}

/// Every rule code the `[rules]` table accepts.
pub fn rule_codes() -> (r: Vec<&'static str>)
    ensures
        r@.len() == 8,
        r@.map_values(|s: &'static str| s@) == crate::rules::all_rules().map_values(|x: crate::rules::RuleId| crate::rules::rule_code(x)),
{
    let rules = crate::rules::all();
    let mut out: Vec<&'static str> = Vec::new();
    let mut i: usize = 0;
    while i < rules.len()
        invariant
            rules@ == crate::rules::all_rules(),
            0 <= i <= rules@.len(),
            out@.map_values(|s: &'static str| s@) == rules@.take(i as int).map_values(|x: crate::rules::RuleId| crate::rules::rule_code(x)),
        decreases rules.len() - i,
    {
        let ghost before = out@;
        out.push(rules[i].code());
        proof {
            assert(rules@.take(i + 1) =~= rules@.take(i as int).push(rules@[i as int]));
            assert(out@.map_values(|s: &'static str| s@) =~= before.map_values(|s: &'static str| s@).push(crate::rules::rule_code(rules@[i as int])));
            assert(out@.map_values(|s: &'static str| s@) =~= rules@.take(i + 1).map_values(|x: crate::rules::RuleId| crate::rules::rule_code(x)));
        }
        i = i + 1;
    }
    proof {
        assert(rules@.take(rules@.len() as int) =~= rules@);
        assert(out@.map_values(|s: &'static str| s@).len() == out@.len());
        assert(crate::rules::all_rules().len() == 8);
    }
    out
}

/// The keys a `[rules.<code>]` table accepts, `None` for an unknown code.
pub open spec fn keys_for_code_spec(code: Seq<char>) -> Option<Seq<Seq<char>>> {
    if code == "ZR001"@ || code == "ZR002"@ || code == "ZR007"@ {
        Some(seq!["enabled"@])
    } else if code == "ZR003"@ {
        Some(seq!["enabled"@, "extra_helpers"@])
    } else if code == "ZR004"@ {
        Some(seq!["enabled"@, "max_asserts"@])
    } else if code == "ZR005"@ {
        Some(seq!["enabled"@, "allowed_prefixes"@])
    } else if code == "ZR006"@ || code == "ZR008"@ {
        Some(seq!["enabled"@, "max_patches"@])
    } else {
        None
    }
}

/// The keys a `[rules.<code>]` table accepts, `None` for an unknown code.
pub fn keys_for_code(code: &str) -> (r: Option<Vec<&'static str>>)
    ensures
        match keys_for_code_spec(code@) {
            Some(ks) => r matches Some(v) && v@.map_values(|s: &'static str| s@) == ks,
            None => r is None,
        },
{
    let c = crate::text::str_chars(code);
    let v: Vec<&'static str> = if crate::text::eq_str(&c, "ZR001") || crate::text::eq_str(&c, "ZR002")
        || crate::text::eq_str(&c, "ZR007") {
        vec!["enabled"]
    } else if crate::text::eq_str(&c, "ZR003") {
        vec!["enabled", "extra_helpers"]
    } else if crate::text::eq_str(&c, "ZR004") {
        vec!["enabled", "max_asserts"]
    } else if crate::text::eq_str(&c, "ZR005") {
        vec!["enabled", "allowed_prefixes"]
    } else if crate::text::eq_str(&c, "ZR006") || crate::text::eq_str(&c, "ZR008") {
        vec!["enabled", "max_patches"]
    } else {
        return None;
    };
    proof {
        let ks = keys_for_code_spec(code@)->0;
        assert(v@.map_values(|s: &'static str| s@) =~= ks);
    }
    Some(v)
}

/// The code of rule `c` (in code order), a dot, and its `k`-th key.
pub open spec fn qualified_key(c: int, k: int) -> Seq<char> {
    let code = crate::rules::rule_code(crate::rules::all_rules()[c]);
    code + "."@ + keys_for_code_spec(code)->0[k]
}

/// `s` is some rule's code, a dot, and one of its keys.
pub open spec fn is_qualified(s: Seq<char>) -> bool {
    exists|c: int, k: int| key_position(c, k) && s == #[trigger] qualified_key(c, k)
}

/// `k` indexes a key of rule `c`.
pub open spec fn key_position(c: int, k: int) -> bool {
    &&& 0 <= c < 8
    &&& keys_for_code_spec(crate::rules::rule_code(crate::rules::all_rules()[c])) is Some
    &&& 0 <= k < keys_for_code_spec(crate::rules::rule_code(crate::rules::all_rules()[c]))->0.len()
}

/// Every per-rule key qualified as `CODE.key`: each rule's keys, in code order.
pub fn qualified_rule_keys() -> (r: Vec<String>)
    ensures
        forall|i: int| 0 <= i < r@.len() ==> is_qualified(#[trigger] r@[i]@),
        forall|c: int, k: int| key_position(c, k) ==> exists|i: int| 0 <= i < r@.len() && #[trigger] r@[i]@ == qualified_key(c, k),
{
    let codes = rule_codes();
    let mut out: Vec<String> = Vec::new();
    let mut i: usize = 0;
    while i < codes.len()
        invariant
            codes@.len() == 8,
            codes@.map_values(|s: &'static str| s@) == crate::rules::all_rules().map_values(|x: crate::rules::RuleId| crate::rules::rule_code(x)),
            0 <= i <= codes@.len(),
            forall|j: int| 0 <= j < out@.len() ==> is_qualified(#[trigger] out@[j]@),
            forall|c: int, k: int| key_position(c, k) && c < i ==> exists|j: int| 0 <= j < out@.len() && #[trigger] out@[j]@ == qualified_key(c, k),
        decreases codes.len() - i,
    {
        proof {
            assert(codes@.map_values(|s: &'static str| s@)[i as int] == codes@[i as int]@);
        }
        match keys_for_code(codes[i]) {
            Some(keys) => {
                let mut k: usize = 0;
                while k < keys.len()
                    invariant
                        codes@.len() == 8,
                        codes@.map_values(|s: &'static str| s@) == crate::rules::all_rules().map_values(|x: crate::rules::RuleId| crate::rules::rule_code(x)),
                        0 <= i < codes@.len(),
                        keys_for_code_spec(codes@[i as int]@) matches Some(ks) && keys@.map_values(|s: &'static str| s@) == ks,
                        0 <= k <= keys@.len(),
                        forall|j: int| 0 <= j < out@.len() ==> is_qualified(#[trigger] out@[j]@),
                        forall|c: int, k2: int| key_position(c, k2) && (c < i || (c == i && k2 < k)) ==> exists|j: int| 0 <= j < out@.len() && #[trigger] out@[j]@ == qualified_key(c, k2),
                    decreases keys.len() - k,
                {
                    let mut q = crate::text::str_chars(codes[i]);
                    crate::text::push_str(&mut q, ".");
                    crate::text::push_str(&mut q, keys[k]);
                    let qs = crate::text::string_of(&q);
                    let ghost before = out@;
                    out.push(qs);
                    proof {
                        let code = crate::rules::rule_code(crate::rules::all_rules()[i as int]);
                        assert(codes@.len() == 8);
                        assert(crate::rules::all_rules().map_values(|x: crate::rules::RuleId| crate::rules::rule_code(x))[i as int] == code);
                        assert(code == codes@.map_values(|s: &'static str| s@)[i as int]);
                        assert(keys@.map_values(|s: &'static str| s@)[k as int] == keys@[k as int]@);
                        assert(key_position(i as int, k as int));
                        assert(out@[before.len() as int]@ == qualified_key(i as int, k as int));
                        assert forall|j: int| 0 <= j < out@.len() implies is_qualified(#[trigger] out@[j]@) by {
                            if j == before.len() {
                                assert(key_position(i as int, k as int) && out@[j]@ == qualified_key(i as int, k as int));
                            } else {
                                assert(out@[j] == before[j]);
                            }
                        }
                        assert forall|c: int, k2: int| key_position(c, k2) && (c < i || (c == i && k2 < k + 1)) implies exists|j: int| 0 <= j < out@.len() && #[trigger] out@[j]@ == qualified_key(c, k2) by {
                            if c == i && k2 == k {
                                assert(out@[before.len() as int]@ == qualified_key(c, k2));
                            } else {
                                let j = choose|j: int| 0 <= j < before.len() && #[trigger] before[j]@ == qualified_key(c, k2);
                                assert(out@[j] == before[j]);
                            }
                        }
                    }
                    k = k + 1;
                }
                proof {
                    assert forall|c: int, k2: int| key_position(c, k2) && c < i + 1 implies exists|j: int| 0 <= j < out@.len() && #[trigger] out@[j]@ == qualified_key(c, k2) by {
                        if c == i {
                            assert(k2 < keys@.len());
                        }
                    }
                }
            },
            None => {
                proof {
                    assert forall|c: int, k2: int| key_position(c, k2) && c < i + 1 implies exists|j: int| 0 <= j < out@.len() && #[trigger] out@[j]@ == qualified_key(c, k2) by {
                        if c == i {
                            assert(crate::rules::rule_code(crate::rules::all_rules()[c]) == codes@[i as int]@);
                        }
                    }
                }
            },
        }
        i = i + 1;
    }
    proof {
        assert(codes@.len() == 8);
        assert forall|c: int, k: int| key_position(c, k) implies exists|i: int| 0 <= i < out@.len() && #[trigger] out@[i]@ == qualified_key(c, k) by {
            assert(c < 8);
        }
    }
    out
}


impl Default for RuleConfig {
    /// The knobs of a configuration that sets no rule table: nothing switched
    /// off, the built-in helpers, the default maxima, no allowed prefixes.
    fn default() -> (r: Self)
        ensures
            r.disabled@.len() == 0,
            strings_view(r.zr003.helpers@).no_duplicates(),
            forall|h: Seq<char>| #[trigger] has_str(r.zr003.helpers@, h) <==> default_helpers_spec().contains(h),
            r.zr004.max_asserts == DEFAULT_ZR004_MAX_ASSERTS,
            r.zr005.allowed_prefixes@.len() == 0,
            r.zr006.max_patches == DEFAULT_ZR006_MAX_PATCHES,
            r.zr008.max_patches == DEFAULT_ZR008_MAX_PATCHES,
    {
        let c = Config::default();
        proof {
            reveal(Config::rules_are_empty);
        }
        let r = c.rule_config();
        proof {
            assert(disabled_spec(c.raw_rules()) =~= Seq::<Seq<char>>::empty());
            assert(opt_strings(c.raw_rules().zr003.extra_helpers) =~= Seq::<Seq<char>>::empty());
            assert(non_empty(opt_strings(c.raw_rules().zr005.allowed_prefixes)) =~= Seq::<Seq<char>>::empty());
            assert(r.disabled@.map_values(|s: &'static str| s@).len() == r.disabled@.len());
            assert(strings_view(r.zr005.allowed_prefixes@).len() == r.zr005.allowed_prefixes@.len());
        }
        r
    }
}

/// What one directory on the way up from the start of a configuration search
/// holds: a `zorilla.toml` (as read), a `pyproject.toml` (with its
/// `[tool.zorilla]` section, if it has one), or neither.
pub enum DirConfig {
    Standalone(RawConfig),
    Pyproject(Option<RawConfig>),
    Neither,
}

/// The directory decides the search: it has a `zorilla.toml`, or a
/// `pyproject.toml` with a `[tool.zorilla]` section.
pub open spec fn decides(d: DirConfig) -> bool {
    match d {
        DirConfig::Standalone(_) => true,
        DirConfig::Pyproject(Some(_)) => true,
        _ => false,
    }
}

/// The section a deciding directory holds.
pub open spec fn section_of(d: DirConfig) -> RawConfig
    recommends
        decides(d),
{
    match d {
        DirConfig::Standalone(r) => r,
        DirConfig::Pyproject(Some(r)) => r,
        _ => arbitrary(),
    }
}

impl DirConfig {
    /// Whether this directory ends the upward search (see [`decides`]).
    pub fn ends_search(&self) -> (r: bool)
        ensures
            r == decides(*self),
    {
        match self {
            DirConfig::Standalone(_) => true,
            DirConfig::Pyproject(Some(_)) => true,
            _ => false,
        }
    }
}

impl Config {
    /// The configuration found searching upward: `dirs` lists what each
    /// directory holds, nearest first. The nearest directory with a
    /// `zorilla.toml`, or else a `pyproject.toml` carrying `[tool.zorilla]`,
    /// supplies the section; a `pyproject.toml` without one is passed over.
    /// With none, the defaults.
    pub fn discover(dirs: Vec<DirConfig>) -> (r: Self)
        ensures
            match first_deciding(dirs@) {
                Some(k) => {
                    let raw = section_of(dirs@[k]);
                    &&& strings_view(r.include_globs@) == match raw.include_globs {
                        Some(v) => strings_view(v@),
                        None => default_include_spec(),
                    }
                    &&& strings_view(r.exclude@) == match raw.exclude {
                        Some(v) => strings_view(v@),
                        None => default_exclude_spec(),
                    }
                    &&& r.raw_rules() == raw.rules
                },
                None => strings_view(r.include_globs@) == default_include_spec() && strings_view(r.exclude@)
                    == default_exclude_spec() && r.rules_are_empty(),
            },
    {
        let ghost ds = dirs@;
        assert(ds.len() == dirs.len());
        let mut rest = dirs;
        let mut k: usize = 0;
        proof {
            assert(rest@ == ds.skip(0));
        }
        while rest.len() > 0
            invariant
                ds == dirs@,
                ds.len() <= usize::MAX,
                k + rest@.len() == ds.len(),
                rest@ == ds.skip(k as int),
                forall|j: int| 0 <= j < k ==> !#[trigger] decides(ds[j]),
            decreases rest.len(),
        {
            let d = rest.remove(0);
            proof {
                assert(d == ds[k as int]);
                assert(rest@ =~= ds.skip(k + 1));
            }
            match d {
                DirConfig::Standalone(raw) => {
                    proof {
                        lemma_first_deciding(ds, k as int);
                        assert(section_of(ds[k as int]) == raw);
                    }
                    return Config::from_raw(raw);
                },
                DirConfig::Pyproject(Some(raw)) => {
                    proof {
                        lemma_first_deciding(ds, k as int);
                        assert(section_of(ds[k as int]) == raw);
                    }
                    return Config::from_raw(raw);
                },
                _ => {},
            }
            k = k + 1;
        }
        proof {
            lemma_none_deciding(ds);
        }
        Config::default()
    }
}

/// The index of the first deciding directory.
pub open spec fn first_deciding(ds: Seq<DirConfig>) -> Option<int>
    decreases ds.len(),
{
    if ds.len() == 0 {
        None
    } else if decides(ds[0]) {
        Some(0)
    } else {
        match first_deciding(ds.drop_first()) {
            Some(k) => Some(k + 1),
            None => None,
        }
    }
}

proof fn lemma_first_deciding(ds: Seq<DirConfig>, k: int)
    requires
        0 <= k < ds.len(),
        decides(ds[k]),
        forall|j: int| 0 <= j < k ==> !#[trigger] decides(ds[j]),
    ensures
        first_deciding(ds) == Some(k),
    decreases k,
{
    if k > 0 {
        let t = ds.drop_first();
        assert forall|j: int| 0 <= j < k - 1 implies !#[trigger] decides(t[j]) by {
            assert(t[j] == ds[j + 1]);
        }
        assert(t[k - 1] == ds[k]);
        lemma_first_deciding(t, k - 1);
    }
}

proof fn lemma_none_deciding(ds: Seq<DirConfig>)
    requires
        forall|j: int| 0 <= j < ds.len() ==> !#[trigger] decides(ds[j]),
    ensures
        first_deciding(ds) is None,
    decreases ds.len(),
{
    if ds.len() > 0 {
        let t = ds.drop_first();
        assert forall|j: int| 0 <= j < t.len() implies !#[trigger] decides(t[j]) by {
            assert(t[j] == ds[j + 1]);
        }
        lemma_none_deciding(t);
    }
}

} // verus!
