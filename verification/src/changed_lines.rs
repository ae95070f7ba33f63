//! Manifest of changed lines (`zorilla check --changed-lines`).
//!
//! One entry per line: `path`, or `path:1-3,7-9`. Ranges are inclusive and
//! 1-indexed; a path may repeat (ranges union, and a bare path — the whole
//! file — wins); blank lines and `#` comments are skipped; a malformed line
//! is an error carrying its 1-indexed line number.
//!
//! A finding is kept when its file is not in the manifest, is in it as a
//! whole file, or its line lies inside one of the file's ranges.
use vstd::prelude::*;
use crate::text::{
    all_digits, is_ws, lines, lines_of, parse_u32, parse_u32_range, push_debug_quoted, str_debug, push_str, split_on, starts_with, trim, trim_range,
};

verus! {

/// Errors surfaced while reading a `--changed-lines` manifest.
#[derive(Debug)]
pub enum ManifestError {
    /// The manifest could not be read.
    Io { message: String },
    /// A line of the manifest is malformed (1-indexed line number).
    Malformed { line: usize, message: String },
}

/// The 1-indexed lines covered by `rs`.
pub open spec fn covers(rs: Seq<(u32, u32)>, x: int) -> bool {
    exists|i: int| 0 <= i < rs.len() && (rs[i].0 as int) <= x && x <= (rs[i].1 as int)
}

pub open spec fn coverage(rs: Seq<(u32, u32)>) -> Set<int> {
    Set::new(|x: int| covers(rs, x))
}

/// Sorted, each range well formed, and no two ranges overlapping or touching.
pub open spec fn canonical(rs: Seq<(u32, u32)>) -> bool {
    &&& forall|i: int| 0 <= i < rs.len() ==> #[trigger] rs[i].0 <= rs[i].1
    &&& forall|i: int|
        0 <= i < rs.len() - 1 ==> (#[trigger] rs[i].1 as int) + 1 < (rs[i + 1].0 as int)
}

pub open spec fn sorted_by_start(rs: Seq<(u32, u32)>) -> bool {
    forall|i: int, j: int| 0 <= i < j < rs.len() ==> rs[i].0 <= rs[j].0
}

/// Ranges sorted by start, as `sort_unstable_by_key` leaves them.
fn sort_ranges(v: Vec<(u32, u32)>) -> (r: Vec<(u32, u32)>)
    requires
        forall|i: int| 0 <= i < v@.len() ==> #[trigger] v@[i].0 <= v@[i].1,
    ensures
        forall|i: int| 0 <= i < r@.len() ==> #[trigger] r@[i].0 <= r@[i].1,
        sorted_by_start(r@),
        forall|x: int| covers(r@, x) == covers(v@, x),
        r@.len() == v@.len(),
{
    let mut out: Vec<(u32, u32)> = Vec::new();
    let mut k: usize = 0;
    while k < v.len()
        invariant
            0 <= k <= v@.len(),
            out@.len() == k,
            forall|i: int| 0 <= i < v@.len() ==> #[trigger] v@[i].0 <= v@[i].1,
            forall|i: int| 0 <= i < out@.len() ==> #[trigger] out@[i].0 <= out@[i].1,
            sorted_by_start(out@),
            forall|x: int| covers(out@, x) == covers(v@.take(k as int), x),
        decreases v.len() - k,
    {
        let item = v[k];
        let mut p: usize = 0;
        while p < out.len() && out[p].0 <= item.0
            invariant
                0 <= p <= out@.len(),
                forall|j: int| 0 <= j < p ==> out@[j].0 <= item.0,
            decreases out.len() - p,
        {
            p = p + 1;
        }
        let ghost old_out = out@;
        out.insert(p, item);
        proof {
            assert(out@ == old_out.insert(p as int, item));
            assert forall|i: int| 0 <= i < out@.len() implies #[trigger] out@[i].0 <= out@[i].1 by {
                if i < p {
                    assert(out@[i] == old_out[i]);
                } else if i > p {
                    assert(out@[i] == old_out[i - 1]);
                }
            }
            assert forall|i: int, j: int| 0 <= i < j < out@.len() implies out@[i].0 <= out@[j].0 by {
                if j < p {
                } else if j == p {
                } else if i < p {
                    if p < old_out.len() {
                        assert(old_out[p as int].0 > item.0);
                        assert(old_out[i].0 <= old_out[j - 1].0);
                    }
                } else if i == p {
                    assert(old_out[p as int].0 > item.0 || p == old_out.len());
                    if p < old_out.len() {
                        assert(old_out[p as int].0 <= old_out[j - 1].0 || j - 1 == p);
                    }
                } else {
                    assert(old_out[i - 1].0 <= old_out[j - 1].0);
                }
            }
            assert(v@.take(k + 1) =~= v@.take(k as int).push(item));
            assert forall|x: int| covers(out@, x) == covers(v@.take(k + 1), x) by {
                let t = v@.take(k + 1);
                if covers(out@, x) {
                    let i = choose|i: int|
                        0 <= i < out@.len() && (out@[i].0 as int) <= x && x <= (out@[i].1 as int);
                    if i == p {
                        assert(t[k as int] == item);
                    } else if i < p {
                        assert(covers(old_out, x));
                        let m = choose|m: int|
                            0 <= m < k && (v@.take(k as int)[m].0 as int) <= x && x <= (v@.take(
                                k as int,
                            )[m].1 as int);
                        assert(t[m] == v@.take(k as int)[m]);
                    } else {
                        assert(old_out[i - 1] == out@[i]);
                        assert(covers(old_out, x));
                        let m = choose|m: int|
                            0 <= m < k && (v@.take(k as int)[m].0 as int) <= x && x <= (v@.take(
                                k as int,
                            )[m].1 as int);
                        assert(t[m] == v@.take(k as int)[m]);
                    }
                }
                if covers(t, x) {
                    let m = choose|m: int| 0 <= m < t.len() && (t[m].0 as int) <= x && x <= (t[m].1 as int);
                    if m == k {
                        assert(out@[p as int] == item);
                    } else {
                        assert(v@.take(k as int)[m] == t[m]);
                        assert(covers(v@.take(k as int), x));
                        assert(covers(old_out, x));
                        let i = choose|i: int|
                            0 <= i < old_out.len() && (old_out[i].0 as int) <= x && x <= (
                            old_out[i].1 as int);
                        if i < p {
                            assert(out@[i] == old_out[i]);
                        } else {
                            assert(out@[i + 1] == old_out[i]);
                        }
                    }
                }
            }
        }
        k = k + 1;
    }
    assert(v@.take(v@.len() as int) =~= v@);
    out
}

pub proof fn lemma_covers_push(rs: Seq<(u32, u32)>, r: (u32, u32), x: int)
    ensures
        covers(rs.push(r), x) == (covers(rs, x) || ((r.0 as int) <= x && x <= (r.1 as int))),
{
    let t = rs.push(r);
    if covers(rs, x) {
        let i = choose|i: int| 0 <= i < rs.len() && (rs[i].0 as int) <= x && x <= (rs[i].1 as int);
        assert(t[i] == rs[i]);
    }
    if (r.0 as int) <= x && x <= (r.1 as int) {
        assert(t[rs.len() as int] == r);
    }
    if covers(t, x) {
        let i = choose|i: int| 0 <= i < t.len() && (t[i].0 as int) <= x && x <= (t[i].1 as int);
        if i < rs.len() {
            assert(t[i] == rs[i]);
        }
    }
}

pub proof fn lemma_covers_set_last(rs: Seq<(u32, u32)>, r: (u32, u32), x: int)
    requires
        rs.len() > 0,
    ensures
        covers(rs.update(rs.len() - 1, r), x) == covers(rs.drop_last().push(r), x),
{
    assert(rs.update(rs.len() - 1, r) =~= rs.drop_last().push(r));
}

/// Sorts `ranges` and merges overlapping or adjacent ones (`end + 1 >= start`), so
/// `1-3,4-5` becomes `1-5`. The result is canonical and covers the same lines.
pub fn merge_ranges(ranges: Vec<(u32, u32)>) -> (r: Vec<(u32, u32)>)
    requires
        forall|i: int| 0 <= i < ranges@.len() ==> #[trigger] ranges@[i].0 <= ranges@[i].1,
    ensures
        canonical(r@),
        forall|x: int| covers(r@, x) == covers(ranges@, x),
{
    let sorted = sort_ranges(ranges);
    let mut out: Vec<(u32, u32)> = Vec::new();
    let mut k: usize = 0;
    while k < sorted.len()
        invariant
            0 <= k <= sorted@.len(),
            sorted_by_start(sorted@),
            forall|i: int| 0 <= i < sorted@.len() ==> #[trigger] sorted@[i].0 <= sorted@[i].1,
            canonical(out@),
            k > 0 ==> out@.len() > 0,
            k == 0 ==> out@.len() == 0,
            k > 0 ==> out@.last().0 <= sorted@[k - 1].0,
            forall|x: int| covers(out@, x) == covers(sorted@.take(k as int), x),
        decreases sorted.len() - k,
    {
        let (s, e) = sorted[k];
        let ghost old_out = out@;
        proof {
            assert(sorted@.take(k + 1) =~= sorted@.take(k as int).push((s, e)));
        }
        let n: usize = out.len();
        if n > 0 && out[n - 1].1.saturating_add(1) >= s {
            let (ls, le) = out[n - 1];
            let ne: u32 = if le >= e { le } else { e };
            out.set(n - 1, (ls, ne));
            proof {
                assert(ls <= sorted@[k - 1].0);
                assert(sorted@[k - 1].0 <= s);
                assert forall|x: int| covers(out@, x) == covers(sorted@.take(k + 1), x) by {
                    lemma_covers_set_last(old_out, (ls, ne), x);
                    lemma_covers_push(old_out.drop_last(), (ls, ne), x);
                    lemma_covers_push(old_out.drop_last(), (ls, le), x);
                    assert(old_out.drop_last().push((ls, le)) =~= old_out);
                    lemma_covers_push(sorted@.take(k as int), (s, e), x);
                }
            }
        } else {
            out.push((s, e));
            proof {
                assert forall|x: int| covers(out@, x) == covers(sorted@.take(k + 1), x) by {
                    lemma_covers_push(old_out, (s, e), x);
                    lemma_covers_push(sorted@.take(k as int), (s, e), x);
                }
            }
        }
        k = k + 1;
    }
    assert(sorted@.take(sorted@.len() as int) =~= sorted@);
    out
}

/// `ranges` covers `line` (linear scan).
fn ranges_contain(ranges: &Vec<(u32, u32)>, line: u32) -> (r: bool)
    ensures
        r == covers(ranges@, line as int),
{
    let mut i: usize = 0;
    while i < ranges.len()
        invariant
            0 <= i <= ranges@.len(),
            forall|j: int| 0 <= j < i ==> !((ranges@[j].0 as int) <= line && line <= (ranges@[j].1 as int)),
        decreases ranges.len() - i,
    {
        if ranges[i].0 <= line && line <= ranges[i].1 {
            return true;
        }
        i = i + 1;
    }
    false
}


/// A spec-level manifest error: 1-indexed line and message.
pub type MalformedSpec = (int, Seq<char>);

/// `e` is the `Malformed` error described by `m`.
pub open spec fn is_malformed(e: ManifestError, m: MalformedSpec) -> bool {
    e matches ManifestError::Malformed { line, message } && line as int == m.0 && message@ == m.1
}

/// Index of the first `c` in `s`.
pub open spec fn first_index(s: Seq<char>, c: char) -> int {
    choose|d: int| 0 <= d < s.len() && s[d] == c && forall|j: int| 0 <= j < d ==> s[j] != c
}

/// Index of the last `c` in `s`.
pub open spec fn last_index(s: Seq<char>, c: char) -> int {
    choose|d: int| 0 <= d < s.len() && s[d] == c && forall|j: int| d < j < s.len() ==> s[j] != c
}

/// One comma-separated piece of a range list, `start-end`.
#[verifier::opaque]
pub open spec fn parse_piece_spec(raw: Seq<char>, line: int) -> Result<(u32, u32), MalformedSpec> {
    let piece = trim(raw);
    if piece.len() == 0 {
        Err((line, "empty range segment"@))
    } else if !piece.contains('-') {
        Err((line, "range "@ + str_debug(piece) + " missing '-' separator"@))
    } else {
        let d = first_index(piece, '-');
        let ss = piece.take(d);
        let es = piece.skip(d + 1);
        match parse_u32(ss) {
            None => Err((line, "range start "@ + str_debug(ss) + " is not an integer"@)),
            Some(st) => match parse_u32(es) {
                None => Err((line, "range end "@ + str_debug(es) + " is not an integer"@)),
                Some(en) => if st == 0 || en == 0 {
                    Err(
                        (
                            line,
                            "range "@ + str_debug(piece)
                                + " contains 0 (line numbers are 1-indexed)"@,
                        ),
                    )
                } else if st > en {
                    Err((line, "range "@ + str_debug(piece) + " has start > end"@))
                } else {
                    Ok((st, en))
                },
            },
        }
    }
}

/// The pieces parsed in order; the first malformed piece decides the error.
pub open spec fn parse_ranges_spec(pieces: Seq<Seq<char>>, line: int) -> Result<
    Seq<(u32, u32)>,
    MalformedSpec,
>
    decreases pieces.len(),
{
    if pieces.len() == 0 {
        Ok(Seq::empty())
    } else {
        match parse_ranges_spec(pieces.drop_last(), line) {
            Err(e) => Err(e),
            Ok(acc) => match parse_piece_spec(pieces.last(), line) {
                Err(e) => Err(e),
                Ok(r) => Ok(acc.push(r)),
            },
        }
    }
}

/// One non-blank, non-comment manifest line: the path, and its ranges or `None` for
/// the whole file. The range list follows the last `:`.
pub open spec fn parse_line_spec(line: Seq<char>, line_no: int) -> Result<
    (Seq<char>, Option<Seq<(u32, u32)>>),
    MalformedSpec,
> {
    if !line.contains(':') {
        if line.len() == 0 {
            Err((line_no, "empty path"@))
        } else {
            Ok((line, None))
        }
    } else {
        let c = last_index(line, ':');
        let path = line.take(c);
        let rest = line.skip(c + 1);
        if rest.len() == 0 {
            Err((line_no, "empty range after ':'"@))
        } else if path.len() == 0 {
            Err((line_no, "empty path"@))
        } else {
            match parse_ranges_spec(split_on(rest, ','), line_no) {
                Err(e) => Err(e),
                Ok(rs) => Ok((path, Some(rs))),
            }
        }
    }
}

proof fn lemma_first_index(s: Seq<char>, c: char, d: int)
    requires
        0 <= d < s.len(),
        s[d] == c,
        forall|j: int| 0 <= j < d ==> s[j] != c,
    ensures
        first_index(s, c) == d,
{
    let f = first_index(s, c);
    assert(0 <= f < s.len() && s[f] == c && forall|j: int| 0 <= j < f ==> s[j] != c);
}

proof fn lemma_last_index(s: Seq<char>, c: char, d: int)
    requires
        0 <= d < s.len(),
        s[d] == c,
        forall|j: int| d < j < s.len() ==> s[j] != c,
    ensures
        last_index(s, c) == d,
{
    let f = last_index(s, c);
    assert(0 <= f < s.len() && s[f] == c && forall|j: int| f < j < s.len() ==> s[j] != c);
}

fn malformed_msg(line: usize, msg: &Vec<char>) -> (e: ManifestError)
    ensures
        is_malformed(e, (line as int, msg@)),
{
    ManifestError::Malformed { line, message: crate::text::string_of(msg) }
}

/// Exec form of [`parse_piece_spec`] on `s[lo..hi]`.
fn parse_piece(s: &[char], lo: usize, hi: usize, line: usize) -> (r: Result<(u32, u32), Vec<char>>)
    requires
        lo <= hi <= s@.len(),
    ensures
        match parse_piece_spec(s@.subrange(lo as int, hi as int), line as int) {
            Ok(p) => r == Ok::<(u32, u32), Vec<char>>(p),
            Err(e) => r is Err && r->Err_0@ == e.1,
        },
        r matches Ok(p) ==> p.0 <= p.1,
{
    reveal(parse_piece_spec);
    let ghost raw = s@.subrange(lo as int, hi as int);
    let (a, b) = trim_range(s, lo, hi);
    let ghost piece = s@.subrange(a as int, b as int);
    assert(piece == trim(raw));
    let mut msg: Vec<char> = Vec::new();
    if a == b {
        push_str(&mut msg, "empty range segment");
        return Err(msg);
    }
    let dash = crate::text::find_char_from(s, '-', a);
    let d: usize = match dash {
        Some(d) if d < b => d,
        _ => {
            proof {
                assert forall|j: int| 0 <= j < piece.len() implies piece[j] != '-' by {
                    assert(piece[j] == s@[a + j]);
                }
                assert(!piece.contains('-'));
            }
            push_str(&mut msg, "range ");
            push_debug_quoted(&mut msg, s, a, b);
            push_str(&mut msg, " missing '-' separator");
            return Err(msg);
        },
    };
    proof {
        assert(piece[d - a] == '-');
        assert forall|j: int| 0 <= j < d - a implies piece[j] != '-' by {
            assert(piece[j] == s@[a + j]);
        }
        lemma_first_index(piece, '-', d - a);
        assert(piece.contains('-'));
        assert(piece.take(d - a) =~= s@.subrange(a as int, d as int));
        assert(piece.skip(d - a + 1) =~= s@.subrange(d + 1, b as int));
    }
    let st = match parse_u32_range(s, a, d) {
        Some(v) => v,
        None => {
            push_str(&mut msg, "range start ");
            push_debug_quoted(&mut msg, s, a, d);
            push_str(&mut msg, " is not an integer");
            return Err(msg);
        },
    };
    let en = match parse_u32_range(s, d + 1, b) {
        Some(v) => v,
        None => {
            push_str(&mut msg, "range end ");
            push_debug_quoted(&mut msg, s, d + 1, b);
            push_str(&mut msg, " is not an integer");
            return Err(msg);
        },
    };
    if st == 0 || en == 0 {
        push_str(&mut msg, "range ");
        push_debug_quoted(&mut msg, s, a, b);
        push_str(&mut msg, " contains 0 (line numbers are 1-indexed)");
        return Err(msg);
    }
    if st > en {
        push_str(&mut msg, "range ");
        push_debug_quoted(&mut msg, s, a, b);
        push_str(&mut msg, " has start > end");
        return Err(msg);
    }
    Ok((st, en))
}

/// Parses one non-blank, non-comment manifest line (see [`parse_line_spec`]).
pub fn parse_line(line: &[char], line_no: usize) -> (r: Result<(Vec<char>, Option<Vec<(u32, u32)>>), ManifestError>)
    ensures
        match parse_line_spec(line@, line_no as int) {
            Ok((p, rs)) => r matches Ok((rp, rr)) && rp@ == p && match rs {
                None => rr is None,
                Some(v) => rr matches Some(w) && w@ == v,
            },
            Err(e) => r matches Err(err) && is_malformed(err, e),
        },
        r matches Ok((rp, Some(w))) ==> forall|i: int| 0 <= i < w@.len() ==> #[trigger] w@[i].0 <= w@[i].1,
{
    let mut msg: Vec<char> = Vec::new();
    let colon = crate::text::rfind_char(line, ':');
    match colon {
        None => {
            assert(!line@.contains(':'));
            if line.len() == 0 {
                push_str(&mut msg, "empty path");
                return Err(malformed_msg(line_no, &msg));
            }
            let path = crate::text::slice_chars(line, 0, line.len());
            assert(path@ =~= line@);
            return Ok((path, None));
        },
        Some(c) => {
            proof {
                lemma_last_index(line@, ':', c as int);
                assert(line@.contains(':'));
            }
            if c == line.len() - 1 {
                assert(line@.skip(c + 1).len() == 0);
                push_str(&mut msg, "empty range after ':'");
                return Err(malformed_msg(line_no, &msg));
            }
            if c == 0 {
                push_str(&mut msg, "empty path");
                return Err(malformed_msg(line_no, &msg));
            }
            let path = crate::text::slice_chars(line, 0, c);
            let rest = crate::text::slice_chars(line, c + 1, line.len());
            assert(path@ =~= line@.take(c as int));
            assert(rest@ =~= line@.skip(c + 1));
            let pieces = crate::text::split_chars(&rest, ',');
            let mut out: Vec<(u32, u32)> = Vec::new();
            let mut k: usize = 0;
            while k < pieces.len()
                invariant
                    0 < c < line@.len() - 1,
                    last_index(line@, ':') == c,
                    line@.contains(':'),
                    rest@ == line@.skip(c + 1),
                    path@ == line@.take(c as int),
                    pieces@.len() == split_on(rest@, ',').len(),
                    forall|i: int| 0 <= i < pieces@.len() ==> #[trigger] pieces@[i]@ == split_on(rest@, ',')[i],
                    0 <= k <= pieces@.len(),
                    parse_ranges_spec(split_on(rest@, ',').take(k as int), line_no as int) == Ok::<Seq<(u32, u32)>, MalformedSpec>(out@),
                    forall|i: int| 0 <= i < out@.len() ==> #[trigger] out@[i].0 <= out@[i].1,
                decreases pieces.len() - k,
            {
                let ghost ps = split_on(rest@, ',');
                let piece = &pieces[k];
                proof {
                    lemma_parse_ranges_step(ps, k as int, line_no as int);
                    assert(piece@.subrange(0, piece@.len() as int) =~= piece@);
                }
                let res = parse_piece(piece, 0, piece.len(), line_no);
                match res {
                    Ok(p) => {
                        out.push(p);
                    },
                    Err(m) => {
                        proof {
                            lemma_parse_ranges_err_prefix(ps, k + 1, line_no as int);
                            lemma_piece_err_line(ps[k as int], line_no as int);
                            let pe = parse_piece_spec(ps[k as int], line_no as int);
                            assert(pe is Err);
                            let ee = pe->Err_0;
                            assert(parse_ranges_spec(ps.take(k + 1), line_no as int) == Err::<Seq<(u32, u32)>, MalformedSpec>(ee));
                            assert(parse_ranges_spec(ps, line_no as int) == Err::<Seq<(u32, u32)>, MalformedSpec>(ee));
                            assert(parse_line_spec(line@, line_no as int) is Err);
                            assert(parse_line_spec(line@, line_no as int)->Err_0 == ee);
                            assert(m@ == ee.1);
                        }
                        return Err(malformed_msg(line_no, &m));
                    },
                }
                k = k + 1;
            }
            assert(split_on(rest@, ',').take(k as int) =~= split_on(rest@, ','));
            Ok((path, Some(out)))
        },
    }
}

proof fn lemma_piece_err_line(raw: Seq<char>, line: int)
    ensures
        parse_piece_spec(raw, line) matches Err(e) ==> e.0 == line,
{
    reveal(parse_piece_spec);
}

proof fn lemma_parse_ranges_step(ps: Seq<Seq<char>>, k: int, line: int)
    requires
        0 <= k < ps.len(),
    ensures
        parse_ranges_spec(ps.take(k + 1), line) == match parse_ranges_spec(ps.take(k), line) {
            Err(e) => Err(e),
            Ok(acc) => match parse_piece_spec(ps[k], line) {
                Err(e) => Err(e),
                Ok(r) => Ok(acc.push(r)),
            },
        },
{
    assert(ps.take(k + 1).drop_last() =~= ps.take(k));
    assert(ps.take(k + 1).last() == ps[k]);
}

/// A malformed piece anywhere in a prefix is the error of the whole list.
proof fn lemma_parse_ranges_err_prefix(ps: Seq<Seq<char>>, k: int, line: int)
    requires
        0 <= k <= ps.len(),
        parse_ranges_spec(ps.take(k), line) is Err,
    ensures
        parse_ranges_spec(ps, line) == parse_ranges_spec(ps.take(k), line),
    decreases ps.len() - k,
{
    if k < ps.len() {
        assert(ps.take(k + 1).drop_last() =~= ps.take(k));
        lemma_parse_ranges_err_prefix(ps, k + 1, line);
    } else {
        assert(ps.take(k) =~= ps);
    }
}

/// The components of a `/`-split path that survive normalisation: empty pieces
/// (from `//` or a trailing `/`) and `.` are dropped.
pub open spec fn path_parts(ps: Seq<Seq<char>>) -> Seq<Seq<char>>
    decreases ps.len(),
{
    if ps.len() == 0 {
        Seq::empty()
    } else {
        let r = path_parts(ps.drop_last());
        let x = ps.last();
        if x.len() == 0 || x == seq!['.'] {
            r
        } else {
            r.push(x)
        }
    }
}

/// Components joined with `/`.
pub open spec fn join_slash(ps: Seq<Seq<char>>) -> Seq<char>
    decreases ps.len(),
{
    if ps.len() == 0 {
        Seq::empty()
    } else if ps.len() == 1 {
        ps[0]
    } else {
        join_slash(ps.drop_last()) + seq!['/'] + ps.last()
    }
}

/// `p` with its `.` components (a leading `./` among them) removed; `..` is kept and
/// nothing touches the filesystem.
pub open spec fn normalize(p: Seq<char>) -> Seq<char> {
    (if p.len() > 0 && p[0] == '/' {
        seq!['/']
    } else {
        Seq::empty()
    }) + join_slash(path_parts(split_on(p, '/')))
}

/// Exec form of [`normalize`].
pub fn normalize_path(p: &[char]) -> (r: Vec<char>)
    ensures
        r@ == normalize(p@),
{
    let pieces = crate::text::split_chars(p, '/');
    let mut out: Vec<char> = Vec::new();
    if p.len() > 0 && p[0] == '/' {
        out.push('/');
    }
    let ghost lead = out@;
    let mut count: usize = 0;
    let mut k: usize = 0;
    while k < pieces.len()
        invariant
            pieces@.len() == split_on(p@, '/').len(),
            forall|i: int| 0 <= i < pieces@.len() ==> #[trigger] pieces@[i]@ == split_on(p@, '/')[i],
            0 <= k <= pieces@.len(),
            lead == (if p@.len() > 0 && p@[0] == '/' { seq!['/'] } else { Seq::<char>::empty() }),
            count == path_parts(split_on(p@, '/').take(k as int)).len(),
            count <= k,
            out@ == lead + join_slash(path_parts(split_on(p@, '/').take(k as int))),
        decreases pieces.len() - k,
    {
        let ghost ps = split_on(p@, '/');
        proof {
            assert(ps.take(k + 1).drop_last() =~= ps.take(k as int));
            assert(ps.take(k + 1).last() == ps[k as int]);
        }
        let piece = &pieces[k];
        let is_dot = piece.len() == 1 && piece[0] == '.';
        proof {
            if piece@.len() == 1 {
                if piece@[0] == '.' {
                    assert(piece@ =~= seq!['.']);
                } else {
                    assert(piece@ != seq!['.']);
                }
            } else {
                assert(piece@.len() != seq!['.'].len());
            }
        }
        if piece.len() != 0 && !is_dot {
            let ghost kept = path_parts(ps.take(k as int));
            if count > 0 {
                out.push('/');
            }
            crate::text::push_all(&mut out, piece);
            proof {
                assert(path_parts(ps.take(k + 1)) == kept.push(piece@));
                if kept.len() == 0 {
                    assert(join_slash(kept.push(piece@)) == piece@);
                    assert(out@ =~= lead + join_slash(kept.push(piece@)));
                } else {
                    assert(kept.push(piece@).drop_last() =~= kept);
                    assert(out@ =~= lead + join_slash(kept.push(piece@)));
                }
            }
            count = count + 1;
        }
        k = k + 1;
    }
    assert(split_on(p@, '/').take(k as int) =~= split_on(p@, '/'));
    out
}

/// One manifest path: the normalised path, whether the whole file is tracked, and its
/// ranges.
#[derive(Debug)]
struct Entry {
    path: Vec<char>,
    whole: bool,
    ranges: Vec<(u32, u32)>,
}

spec fn entry_value(e: Entry) -> Option<Set<int>> {
    if e.whole {
        None
    } else {
        Some(coverage(e.ranges@))
    }
}

spec fn entries_model(es: Seq<Entry>) -> Map<Seq<char>, Option<Set<int>>>
    decreases es.len(),
{
    if es.len() == 0 {
        Map::empty()
    } else {
        entries_model(es.drop_last()).insert(es.last().path@, entry_value(es.last()))
    }
}

spec fn unique_paths(es: Seq<Entry>) -> bool {
    forall|i: int, j: int| 0 <= i < j < es.len() ==> es[i].path@ != es[j].path@
}

proof fn lemma_model_lookup(es: Seq<Entry>, p: Seq<char>)
    requires
        unique_paths(es),
    ensures
        entries_model(es).contains_key(p) <==> exists|j: int| 0 <= j < es.len() && es[j].path@ == p,
        forall|j: int| 0 <= j < es.len() && es[j].path@ == p ==> entries_model(es)[p] == entry_value(es[j]),
    decreases es.len(),
{
    if es.len() > 0 {
        let d = es.drop_last();
        assert(unique_paths(d));
        lemma_model_lookup(d, p);
        if entries_model(es).contains_key(p) && es.last().path@ != p {
            let j = choose|j: int| 0 <= j < d.len() && d[j].path@ == p;
            assert(es[j] == d[j]);
        }
        assert forall|j: int| 0 <= j < es.len() && es[j].path@ == p implies entries_model(es)[p] == entry_value(es[j]) by {
            if j < es.len() - 1 {
                assert(es[j] == d[j]);
            }
        }
        if exists|j: int| 0 <= j < es.len() && es[j].path@ == p {
            let j = choose|j: int| 0 <= j < es.len() && es[j].path@ == p;
            if j < es.len() - 1 {
                assert(d[j] == es[j]);
            }
        }
    }
}

proof fn lemma_model_update(es: Seq<Entry>, j: int, e: Entry)
    requires
        unique_paths(es),
        0 <= j < es.len(),
        e.path@ == es[j].path@,
    ensures
        unique_paths(es.update(j, e)),
        entries_model(es.update(j, e)) == entries_model(es).insert(e.path@, entry_value(e)),
    decreases es.len(),
{
    let u = es.update(j, e);
    assert forall|a: int, b: int| 0 <= a < b < u.len() implies u[a].path@ != u[b].path@ by {
        assert(es[a].path@ != es[b].path@);
    }
    if j == es.len() - 1 {
        assert(u.drop_last() =~= es.drop_last());
        assert(entries_model(u) =~= entries_model(es).insert(e.path@, entry_value(e)));
    } else {
        assert(u.drop_last() =~= es.drop_last().update(j, e));
        assert(unique_paths(es.drop_last()));
        lemma_model_update(es.drop_last(), j, e);
        assert(es.last().path@ != e.path@);
        assert(u.last() == es.last());
        assert(entries_model(u) =~= entries_model(es).insert(e.path@, entry_value(e)));
    }
}

proof fn lemma_model_dom(es: Seq<Entry>)
    ensures
        es.map_values(|e: Entry| e.path@).to_set() == entries_model(es).dom(),
    decreases es.len(),
{
    let ms = es.map_values(|e: Entry| e.path@);
    if es.len() > 0 {
        let d = es.drop_last();
        lemma_model_dom(d);
        let md = d.map_values(|e: Entry| e.path@);
        assert(ms =~= md.push(es.last().path@));
        assert forall|p: Seq<char>| ms.to_set().contains(p) == entries_model(es).dom().contains(p) by {
            if ms.contains(p) {
                let i = choose|i: int| 0 <= i < ms.len() && ms[i] == p;
                if i < md.len() {
                    assert(md[i] == p);
                    assert(md.contains(p));
                }
            }
            if entries_model(es).dom().contains(p) && p != es.last().path@ {
                assert(md.to_set().contains(p));
                let i = choose|i: int| 0 <= i < md.len() && md[i] == p;
                assert(ms[i] == p);
            }
            if p == es.last().path@ {
                assert(ms[ms.len() - 1] == p);
            }
        }
    }
    assert(ms.to_set() =~= entries_model(es).dom());
}

proof fn lemma_same_model(a: Seq<Entry>, b: Seq<Entry>)
    requires
        a.len() == b.len(),
        forall|i: int| 0 <= i < a.len() ==> #[trigger] a[i].path@ == b[i].path@,
        forall|i: int| 0 <= i < a.len() ==> entry_value(#[trigger] a[i]) == entry_value(b[i]),
    ensures
        entries_model(a) == entries_model(b),
        a.map_values(|e: Entry| e.path@) == b.map_values(|e: Entry| e.path@),
    decreases a.len(),
{
    if a.len() > 0 {
        lemma_same_model(a.drop_last(), b.drop_last());
        assert(entry_value(a[a.len() - 1]) == entry_value(b[b.len() - 1]));
    }
    assert(a.map_values(|e: Entry| e.path@) =~= b.map_values(|e: Entry| e.path@));
}

proof fn lemma_coverage_concat(a: Seq<(u32, u32)>, b: Seq<(u32, u32)>)
    ensures
        coverage(a + b) == coverage(a).union(coverage(b)),
{
    assert forall|x: int| coverage(a + b).contains(x) == coverage(a).union(coverage(b)).contains(x) by {
        let t = a + b;
        if covers(t, x) {
            let i = choose|i: int| 0 <= i < t.len() && (t[i].0 as int) <= x && x <= (t[i].1 as int);
            if i < a.len() {
                assert(t[i] == a[i]);
            } else {
                assert(t[i] == b[i - a.len()]);
            }
        }
        if covers(a, x) {
            let i = choose|i: int| 0 <= i < a.len() && (a[i].0 as int) <= x && x <= (a[i].1 as int);
            assert(t[i] == a[i]);
        }
        if covers(b, x) {
            let i = choose|i: int| 0 <= i < b.len() && (b[i].0 as int) <= x && x <= (b[i].1 as int);
            assert(t[i + a.len()] == b[i]);
        }
    }
    assert(coverage(a + b) =~= coverage(a).union(coverage(b)));
}

/// How one parsed manifest line changes the model: the first appearance adds the
/// path; a whole-file appearance wins over ranges; ranges union.
pub open spec fn add_entry(
    m: Map<Seq<char>, Option<Set<int>>>,
    p: Seq<char>,
    rs: Option<Seq<(u32, u32)>>,
) -> Map<Seq<char>, Option<Set<int>>> {
    if m.contains_key(p) {
        match (m[p], rs) {
            (None, _) => m,
            (Some(_), None) => m.insert(p, None),
            (Some(cur), Some(r)) => m.insert(p, Some(cur.union(coverage(r)))),
        }
    } else {
        m.insert(
            p,
            match rs {
                None => None,
                Some(r) => Some(coverage(r)),
            },
        )
    }
}

/// A manifest line with its `\r` stripped and surrounding whitespace trimmed.
pub open spec fn manifest_text(l: Seq<char>) -> Seq<char> {
    trim(if l.len() > 0 && l.last() == '\r' { l.drop_last() } else { l })
}

/// The manifest model after the lines `ls` (1-indexed by position): path -> `None`
/// for a whole file or `Some` of the covered lines; or the first malformed line.
pub open spec fn manifest_spec(ls: Seq<Seq<char>>) -> Result<Map<Seq<char>, Option<Set<int>>>, MalformedSpec>
    decreases ls.len(),
{
    if ls.len() == 0 {
        Ok(Map::empty())
    } else {
        match manifest_spec(ls.drop_last()) {
            Err(e) => Err(e),
            Ok(m) => {
                let t = manifest_text(ls.last());
                if t.len() == 0 || t[0] == '#' {
                    Ok(m)
                } else {
                    match parse_line_spec(t, ls.len() as int) {
                        Err(e) => Err(e),
                        Ok((p, rs)) => Ok(add_entry(m, normalize(p), rs)),
                    }
                }
            },
        }
    }
}

proof fn lemma_manifest_err_prefix(ls: Seq<Seq<char>>, k: int)
    requires
        0 <= k <= ls.len(),
        manifest_spec(ls.take(k)) is Err,
    ensures
        manifest_spec(ls) == manifest_spec(ls.take(k)),
    decreases ls.len() - k,
{
    if k < ls.len() {
        assert(ls.take(k + 1).drop_last() =~= ls.take(k));
        lemma_manifest_err_prefix(ls, k + 1);
    } else {
        assert(ls.take(k) =~= ls);
    }
}

/// Should a finding in (normalised) file `p` at `line` survive the manifest `m`?
pub open spec fn keeps_spec(m: Map<Seq<char>, Option<Set<int>>>, p: Seq<char>, line: int) -> bool {
    match m.get(p) {
        None => true,
        Some(None) => true,
        Some(Some(lines)) => lines.contains(line),
    }
}

spec fn opt_view(rs: Option<Vec<(u32, u32)>>) -> Option<Seq<(u32, u32)>> {
    match rs {
        None => None,
        Some(v) => Some(v@),
    }
}

spec fn ranges_wf(es: Seq<Entry>) -> bool {
    forall|i: int, j: int| 0 <= i < es.len() && 0 <= j < es[i].ranges@.len() ==> #[trigger] es[i].ranges@[j].0 <= es[i].ranges@[j].1
}

/// Records one parsed manifest line in `es` (see [`add_entry`]).
fn add_to_entries(es: &mut Vec<Entry>, key: Vec<char>, rs: Option<Vec<(u32, u32)>>)
    requires
        unique_paths(old(es)@),
        ranges_wf(old(es)@),
        rs matches Some(v) ==> forall|i: int| 0 <= i < v@.len() ==> #[trigger] v@[i].0 <= v@[i].1,
    ensures
        unique_paths(final(es)@),
        ranges_wf(final(es)@),
        entries_model(final(es)@) == add_entry(entries_model(old(es)@), key@, opt_view(rs)),
{
    let mut j: usize = 0;
    let mut found = false;
    while j < es.len() && !found
        invariant
            0 <= j <= es@.len(),
            forall|i: int| 0 <= i < j ==> es@[i].path@ != key@,
            found ==> j < es@.len() && es@[j as int].path@ == key@,
        decreases es.len() - j, if found { 0int } else { 1int },
    {
        if crate::text::chars_eq(&es[j].path, &key) {
            found = true;
        } else {
            j = j + 1;
        }
    }
    let ghost old_es = es@;
    proof {
        lemma_model_lookup(old_es, key@);
    }
    if !found {
        let e = match rs {
            None => Entry { path: key, whole: true, ranges: Vec::new() },
            Some(v) => Entry { path: key, whole: false, ranges: v },
        };
        es.push(e);
        proof {
            assert(es@.drop_last() =~= old_es);
            assert(!entries_model(old_es).contains_key(key@));
            assert forall|x: int, y: int| 0 <= x < y < es@.len() implies es@[x].path@ != es@[y].path@ by {
                if y < es@.len() - 1 {
                    assert(old_es[x].path@ != old_es[y].path@);
                }
            }
            assert forall|i: int, k: int| 0 <= i < es@.len() && 0 <= k < es@[i].ranges@.len() implies #[trigger] es@[i].ranges@[k].0 <= es@[i].ranges@[k].1 by {
                if i < es@.len() - 1 {
                    assert(es@[i] == old_es[i]);
                }
            }
        }
    } else {
        let cur = es.remove(j);
        proof {
            assert(cur == old_es[j as int]);
        }
        let ne = if cur.whole {
            cur
        } else {
            match rs {
                None => Entry { path: cur.path, whole: true, ranges: Vec::new() },
                Some(v) => {
                    let mut acc = cur.ranges;
                    let ghost before = acc@;
                    let mut vv = v;
                    let ghost added = vv@;
                    acc.append(&mut vv);
                    proof {
                        lemma_coverage_concat(before, added);
                        assert(acc@ == before + added);
                    }
                    Entry { path: cur.path, whole: false, ranges: acc }
                },
            }
        };
        es.insert(j, ne);
        proof {
            assert(es@ =~= old_es.update(j as int, ne));
            lemma_model_update(old_es, j as int, ne);
            let m = entries_model(old_es);
            assert(m.contains_key(key@));
            assert(m[key@] == entry_value(old_es[j as int]));
            if old_es[j as int].whole {
                assert(m.insert(key@, entry_value(ne)) =~= m);
            }
            assert forall|i: int, k: int| 0 <= i < es@.len() && 0 <= k < es@[i].ranges@.len() implies #[trigger] es@[i].ranges@[k].0 <= es@[i].ranges@[k].1 by {
                if i != j {
                    assert(es@[i] == old_es[i]);
                } else if !old_es[j as int].whole && rs is Some {
                    let before = old_es[j as int].ranges@;
                    if k >= before.len() {
                        assert(es@[i].ranges@[k] == rs->Some_0@[k - before.len()]);
                    } else {
                        assert(es@[i].ranges@[k] == before[k]);
                    }
                }
            }
        }
    }
}

/// A parsed `--changed-lines` manifest.
#[derive(Debug)]
pub struct ChangedLines {
    entries: Vec<Entry>,
}

impl ChangedLines {
    #[verifier::type_invariant]
    spec fn inv(self) -> bool {
        unique_paths(self.entries@)
    }

    /// Path -> `None` (whole file) or the set of kept lines.
    pub closed spec fn model(&self) -> Map<Seq<char>, Option<Set<int>>> {
        entries_model(self.entries@)
    }

    /// The manifest's paths in first-seen order, normalised.
    pub closed spec fn path_seq(&self) -> Seq<Seq<char>> {
        self.entries@.map_values(|e: Entry| e.path@)
    }

    /// Parses a manifest from its text.
    pub fn from_reader(text: &str) -> (r: Result<ChangedLines, ManifestError>)
        ensures
            match manifest_spec(lines(text@)) {
                Ok(m) => r matches Ok(cl) && cl.model() == m,
                Err(e) => r matches Err(err) && is_malformed(err, e),
            },
            r matches Ok(cl) ==> cl.path_seq().no_duplicates() && cl.path_seq().to_set()
                == cl.model().dom(),
    {
        let chars = crate::text::str_chars(text);
        let ls = lines_of(&chars);
        let mut es: Vec<Entry> = Vec::new();
        let mut idx: usize = 0;
        while idx < ls.len()
            invariant
                ls@.len() == lines(text@).len(),
                forall|i: int| 0 <= i < ls@.len() ==> #[trigger] ls@[i]@ == lines(text@)[i],
                0 <= idx <= ls@.len(),
                unique_paths(es@),
                manifest_spec(lines(text@).take(idx as int)) == Ok::<Map<Seq<char>, Option<Set<int>>>, MalformedSpec>(entries_model(es@)),
                ranges_wf(es@),
            decreases ls.len() - idx,
        {
            let ghost lsv = lines(text@);
            proof {
                assert(lsv.take(idx + 1).drop_last() =~= lsv.take(idx as int));
                assert(lsv.take(idx + 1).last() == lsv[idx as int]);
            }
            let line = &ls[idx];
            let n: usize = line.len();
            let hi: usize = if n > 0 && line[n - 1] == '\r' { n - 1 } else { n };
            let (a, b) = trim_range(line, 0, hi);
            proof {
                let l = line@;
                assert(l.subrange(0, hi as int) =~= (if l.len() > 0 && l.last() == '\r' { l.drop_last() } else { l }));
                assert(manifest_text(l) == l.subrange(a as int, b as int));
                if a < b {
                    assert(manifest_text(l)[0] == l[a as int]);
                }
            }
            if a == b || line[a] == '#' {
                idx = idx + 1;
                continue;
            }
            let t = crate::text::slice_chars(line, a, b);
            let parsed = parse_line(&t, idx + 1);
            let (path, rs) = match parsed {
                Ok(x) => x,
                Err(e) => {
                    proof {
                        lemma_manifest_err_prefix(lsv, idx + 1);
                    }
                    return Err(e);
                },
            };
            let key = normalize_path(&path);
            add_to_entries(&mut es, key, rs);
            idx = idx + 1;
        }
        proof {
            assert(lines(text@).take(idx as int) =~= lines(text@));
        }
        let ghost pre_model = entries_model(es@);
        let mut k: usize = 0;
        let mut merged: Vec<Entry> = Vec::new();
        while k < es.len()
            invariant
                0 <= k <= es@.len(),
                merged@.len() == k,
                unique_paths(es@),
                entries_model(es@) == pre_model,
                forall|i: int| 0 <= i < k ==> #[trigger] merged@[i].path@ == es@[i].path@,
                forall|i: int| 0 <= i < k ==> entry_value(#[trigger] merged@[i]) == entry_value(es@[i]),
                ranges_wf(es@),
            decreases es.len() - k,
        {
            let e = &es[k];
            let path = crate::text::slice_chars(&e.path, 0, e.path.len());
            assert(path@ =~= e.path@);
            let mut copy: Vec<(u32, u32)> = Vec::new();
            let mut q: usize = 0;
            while q < e.ranges.len()
                invariant
                    0 <= q <= e.ranges@.len(),
                    copy@ == e.ranges@.take(q as int),
                decreases e.ranges.len() - q,
            {
                copy.push(e.ranges[q]);
                q = q + 1;
                assert(copy@ =~= e.ranges@.take(q as int));
            }
            assert(copy@ =~= e.ranges@);
            let ranges = merge_ranges(copy);
            proof {
                assert(coverage(ranges@) =~= coverage(e.ranges@));
            }
            merged.push(Entry { path, whole: e.whole, ranges });
            k = k + 1;
        }
        proof {
            lemma_same_model(merged@, es@);
            assert forall|x: int, y: int| 0 <= x < y < merged@.len() implies merged@[x].path@ != merged@[y].path@ by {
                assert(es@[x].path@ != es@[y].path@);
            }
            lemma_model_dom(merged@);
            let ps = merged@.map_values(|e: Entry| e.path@);
            assert forall|x: int, y: int| 0 <= x < ps.len() && 0 <= y < ps.len() && x != y implies ps[x] != ps[y] by {
                if x < y {
                    assert(merged@[x].path@ != merged@[y].path@);
                } else {
                    assert(merged@[y].path@ != merged@[x].path@);
                }
            }
        }
        let out = ChangedLines { entries: merged };
        Ok(out)
    }

    /// True if the manifest has no file entries.
    pub fn is_empty(&self) -> (r: bool)
        ensures
            r == (self.model().dom() == Set::<Seq<char>>::empty()),
    {
        proof {
            lemma_model_dom(self.entries@);
            if self.entries@.len() > 0 {
                let p = self.entries@[0].path@;
                assert(self.entries@.map_values(|e: Entry| e.path@)[0] == p);
                assert(self.model().dom().contains(p));
            } else {
                assert(self.model().dom() =~= Set::<Seq<char>>::empty());
            }
        }
        self.entries.len() == 0
    }

    /// The manifest's file paths (normalised), each once, in first-seen order.
    pub fn paths(&self) -> (r: Vec<String>)
        ensures
            r@.len() == self.path_seq().len(),
            forall|i: int| 0 <= i < r@.len() ==> #[trigger] r@[i]@ == self.path_seq()[i],
    {
        let mut out: Vec<String> = Vec::new();
        let mut i: usize = 0;
        while i < self.entries.len()
            invariant
                0 <= i <= self.entries@.len(),
                out@.len() == i,
                forall|k: int| 0 <= k < i ==> #[trigger] out@[k]@ == self.entries@[k].path@,
            decreases self.entries.len() - i,
        {
            out.push(crate::text::string_of(&self.entries[i].path));
            i = i + 1;
        }
        out
    }

    /// Should a finding at `file:line` survive the filter? True unless `file`
    /// (normalised: `./` and other `.` components dropped) is in the manifest with
    /// ranges and `line` is outside every one of them.
    pub fn keeps(&self, file: &str, line: usize) -> (r: bool)
        ensures
            r == keeps_spec(self.model(), normalize(file@), line as int),
    {
        proof {
            use_type_invariant(self);
        }
        let chars = crate::text::str_chars(file);
        let key = normalize_path(&chars);
        proof {
            lemma_model_lookup(self.entries@, key@);
        }
        let mut j: usize = 0;
        while j < self.entries.len()
            invariant
                0 <= j <= self.entries@.len(),
                unique_paths(self.entries@),
                forall|i: int| 0 <= i < j ==> self.entries@[i].path@ != key@,
                key@ == normalize(file@),
            decreases self.entries.len() - j,
        {
            if crate::text::chars_eq(&self.entries[j].path, &key) {
                proof {
                    lemma_model_lookup(self.entries@, key@);
                }
                let e = &self.entries[j];
                if e.whole {
                    return true;
                }
                if line > 4294967295 {
                    proof {
                        assert(!covers(e.ranges@, line as int));
                    }
                    return false;
                }
                return ranges_contain(&e.ranges, line as u32);
            }
            j = j + 1;
        }
        proof {
            lemma_model_lookup(self.entries@, key@);
        }
        true
    }
}

/// A manifest is empty exactly when it names no path.
pub proof fn law_empty_manifest_names_no_path(cl: ChangedLines)
    requires
        cl.path_seq().to_set() == cl.model().dom(),
    ensures
        (cl.model().dom() == Set::<Seq<char>>::empty()) <==> cl.path_seq().len() == 0,
{
    if cl.path_seq().len() > 0 {
        assert(cl.path_seq().to_set().contains(cl.path_seq()[0]));
    } else {
        assert(cl.path_seq().to_set() =~= Set::<Seq<char>>::empty());
    }
}

} // verus!
