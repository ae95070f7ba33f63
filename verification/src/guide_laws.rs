//! Properties of the commands the guides show.
use vstd::prelude::*;
use crate::guide::{all_invocations, invocations, is_zorilla_cmd, keep_token, kept_tokens};
use crate::text::{is_ws, lead_ws, split_on, trim, trim_start, word_len, words};

verus! {

/// An argument vector as the guides show zorilla: it starts with `zorilla`, and
/// no token is part of a `<placeholder>`.
pub open spec fn argv_ok(a: Seq<Seq<char>>) -> bool {
    &&& a.len() > 0
    &&& a[0] == "zorilla"@
    &&& forall|i: int| 0 <= i < a.len() ==> keep_token(#[trigger] a[i])
}

/// A word of `k` non-blank characters ends at `k`.
proof fn lemma_word_len_at(s: Seq<char>, k: int)
    requires
        0 <= k <= s.len(),
        forall|i: int| 0 <= i < k ==> !is_ws(#[trigger] s[i]),
        k < s.len() ==> is_ws(s[k]),
    ensures
        word_len(s) == k,
    decreases k,
{
    if k > 0 {
        let t = s.drop_first();
        assert forall|i: int| 0 <= i < k - 1 implies !is_ws(#[trigger] t[i]) by {
            assert(t[i] == s[i + 1]);
        }
        if k - 1 < t.len() {
            assert(t[k - 1] == s[k]);
        }
        lemma_word_len_at(t, k - 1);
    }
}

/// The first word of a zorilla command is `zorilla`.
proof fn lemma_first_word_zorilla(seg: Seq<char>)
    requires
        is_zorilla_cmd(seg),
    ensures
        words(seg).len() > 0,
        words(seg)[0] == "zorilla"@,
{
    reveal_strlit("zorilla");
    reveal_strlit("zorilla ");
    let z = "zorilla"@;
    assert(z.len() == 7);
    if seg != z {
        assert(seg.subrange(0, 8) == "zorilla "@);
        assert(seg[7] == seg.subrange(0, 8)[7]);
        assert(is_ws(seg[7]));
    }
    assert forall|i: int| 0 <= i < 7 implies seg[i] == #[trigger] z[i] by {
        if seg != z {
            assert(seg[i] == seg.subrange(0, 8)[i]);
            assert("zorilla "@[i] == z[i]);
        }
    }
    assert(z[0] == 'z');
    assert(seg[0] == 'z');
    assert(!is_ws(seg[0]));
    assert(lead_ws(seg) == 0);
    assert(trim_start(seg) =~= seg);
    assert forall|i: int| 0 <= i < 7 implies !is_ws(#[trigger] seg[i]) by {
        assert(seg[i] == z[i]);
    }
    lemma_word_len_at(seg, 7);
    assert(seg.take(7) =~= z);
}

/// Kept tokens are kept; a kept first token stays first.
proof fn lemma_kept_tokens(ws: Seq<Seq<char>>)
    ensures
        forall|i: int| 0 <= i < kept_tokens(ws).len() ==> keep_token(#[trigger] kept_tokens(ws)[i]),
        ws.len() > 0 && keep_token(ws[0]) ==> kept_tokens(ws).len() > 0 && kept_tokens(ws)[0] == ws[0],
    decreases ws.len(),
{
    if ws.len() > 0 {
        let p = ws.drop_last();
        lemma_kept_tokens(p);
        let kp = kept_tokens(p);
        assert forall|i: int| 0 <= i < kept_tokens(ws).len() implies keep_token(#[trigger] kept_tokens(ws)[i]) by {
            if i < kp.len() {
                assert(kept_tokens(ws)[i] == kp[i]);
            }
        }
        if ws.len() > 1 {
            assert(p[0] == ws[0]);
        } else {
            assert(p.len() == 0);
        }
    }
}

/// Every invocation found in the pipe segments `pieces` is a proper argument vector.
proof fn lemma_invocations_ok(pieces: Seq<Seq<char>>)
    ensures
        forall|k: int| 0 <= k < invocations(pieces).len() ==> argv_ok(#[trigger] invocations(pieces)[k]),
    decreases pieces.len(),
{
    if pieces.len() > 0 {
        let prev = invocations(pieces.drop_last());
        lemma_invocations_ok(pieces.drop_last());
        let seg = trim(pieces.last());
        if is_zorilla_cmd(seg) {
            lemma_first_word_zorilla(seg);
            reveal_strlit("zorilla");
            let z = "zorilla"@;
            assert(!z.contains('<') && !z.contains('>')) by {
                assert forall|i: int| 0 <= i < z.len() implies z[i] != '<' && z[i] != '>' by {}
            }
            lemma_kept_tokens(words(seg));
            let a = kept_tokens(words(seg));
            assert(argv_ok(a));
            assert forall|k: int| 0 <= k < invocations(pieces).len() implies argv_ok(#[trigger] invocations(pieces)[k]) by {
                if k < prev.len() {
                    assert(invocations(pieces)[k] == prev[k]);
                }
            }
        }
    }
}

/// Every zorilla command a guide shows is an argument vector that starts with
/// `zorilla` and holds no `<placeholder>` token.
pub proof fn law_guide_invocations_start_with_zorilla(cmds: Seq<Seq<char>>)
    ensures
        forall|k: int| 0 <= k < all_invocations(cmds).len() ==> argv_ok(#[trigger] all_invocations(cmds)[k]),
    decreases cmds.len(),
{
    if cmds.len() > 0 {
        let prev = all_invocations(cmds.drop_last());
        let more = invocations(split_on(cmds.last(), '|'));
        law_guide_invocations_start_with_zorilla(cmds.drop_last());
        lemma_invocations_ok(split_on(cmds.last(), '|'));
        assert forall|k: int| 0 <= k < all_invocations(cmds).len() implies argv_ok(#[trigger] all_invocations(cmds)[k]) by {
            if k < prev.len() {
                assert(all_invocations(cmds)[k] == prev[k]);
            } else {
                assert(all_invocations(cmds)[k] == more[k - prev.len()]);
            }
        }
    }
}

} // verus!
