//! Identity lists: a newline-delimited list of base58-encoded keys.
//!
//! Blank lines (after trimming whitespace) are skipped; any non-blank line
//! that fails to decode is a fatal configuration error, raised before any
//! subscription is attempted.

use vstd::prelude::*;
use vstd::slice::{slice_index_get, slice_subrange, slice_to_vec};
use crate::errors::ConfigError;

verus! {

/// A parsed identity: the 32 raw bytes of a base58-encoded key.
#[derive(Debug, Clone, Copy)]
pub struct Identity {
    pub bytes: [u8; 32],
}

/// What a line of the identity list decodes to: the 32 key bytes, or
/// nothing when the line is not a well-formed base58-encoded key. The
/// decoding is a fixed function of the line's bytes alone.
pub uninterp spec fn identity_of(line: Seq<u8>) -> Option<Seq<u8>>;

/// Relies on `solana_sdk::pubkey::Pubkey::from_str` (and `Pubkey::to_bytes`):
/// decodes a base58-encoded 32-byte key, rejecting anything else; the
/// outcome depends on the line's bytes alone.
#[verifier::external_body]
fn parse_identity_line(line: &[u8]) -> (r: Option<Identity>)
    ensures
        r matches Some(id) ==> identity_of(line@) == Some(id.bytes@),
        r is None ==> identity_of(line@) is None,
{
    match core::str::from_utf8(line) {
        Ok(s) => match <solana_sdk::pubkey::Pubkey as core::str::FromStr>::from_str(s) {
            Ok(pk) => Some(Identity { bytes: pk.to_bytes() }),
            Err(_) => None,
        },
        Err(_) => None,
    }
}

/// ASCII whitespace: space, tab, line feed, vertical tab, form feed,
/// carriage return.
pub open spec fn is_space(b: u8) -> bool {
    b == 32 || (9 <= b && b <= 13)
}

fn is_space_byte(b: u8) -> (r: bool)
    ensures
        r == is_space(b),
{
    b == 32 || (9 <= b && b <= 13)
}

/// Index of the first line feed in `s`, or `s.len()` if there is none.
pub open spec fn find_nl(s: Seq<u8>) -> int
    decreases s.len(),
{
    if s.len() == 0 {
        0
    } else if s[0] == 10 {
        0
    } else {
        1 + find_nl(s.drop_first())
    }
}

proof fn lemma_find_nl(s: Seq<u8>)
    ensures
        0 <= find_nl(s) <= s.len(),
        forall|j: int| 0 <= j < find_nl(s) ==> s[j] != 10,
        find_nl(s) < s.len() ==> s[find_nl(s)] == 10,
    decreases s.len(),
{
    if s.len() > 0 && s[0] != 10 {
        lemma_find_nl(s.drop_first());
        assert forall|j: int| 0 <= j < find_nl(s) implies s[j] != 10 by {
            if j > 0 {
                assert(s.drop_first()[j - 1] != 10);
            }
        }
    }
}

/// The line-feed-separated lines of `s`. A trailing line feed yields a
/// final empty line, exactly as splitting on the separator does.
pub open spec fn split_lines(s: Seq<u8>) -> Seq<Seq<u8>>
    decreases s.len(),
        via split_lines_decreases
{
    let k = find_nl(s);
    if k >= s.len() {
        seq![s]
    } else {
        seq![s.subrange(0, k)] + split_lines(s.subrange(k + 1, s.len() as int))
    }
}

#[via_fn]
proof fn split_lines_decreases(s: Seq<u8>) {
    lemma_find_nl(s);
}

/// How many whitespace bytes `s` starts with.
pub open spec fn lead_spaces(s: Seq<u8>) -> int
    decreases s.len(),
{
    if s.len() == 0 {
        0
    } else if !is_space(s[0]) {
        0
    } else {
        1 + lead_spaces(s.drop_first())
    }
}

/// How many whitespace bytes `s` ends with.
pub open spec fn trail_spaces(s: Seq<u8>) -> int
    decreases s.len(),
{
    if s.len() == 0 {
        0
    } else if !is_space(s.last()) {
        0
    } else {
        1 + trail_spaces(s.drop_last())
    }
}

/// `s` without its leading and trailing whitespace.
pub open spec fn trimmed(s: Seq<u8>) -> Seq<u8> {
    if lead_spaces(s) == s.len() {
        Seq::empty()
    } else {
        s.subrange(lead_spaces(s), s.len() - trail_spaces(s))
    }
}

proof fn lemma_lead_spaces(s: Seq<u8>)
    ensures
        0 <= lead_spaces(s) <= s.len(),
        forall|j: int| 0 <= j < lead_spaces(s) ==> is_space(s[j]),
        lead_spaces(s) < s.len() ==> !is_space(s[lead_spaces(s)]),
    decreases s.len(),
{
    if s.len() > 0 && is_space(s[0]) {
        lemma_lead_spaces(s.drop_first());
        assert forall|j: int| 0 <= j < lead_spaces(s) implies is_space(s[j]) by {
            if j > 0 {
                assert(is_space(s.drop_first()[j - 1]));
            }
        }
    }
}

proof fn lemma_trail_spaces(s: Seq<u8>)
    ensures
        0 <= trail_spaces(s) <= s.len(),
        forall|j: int| s.len() - trail_spaces(s) <= j < s.len() ==> is_space(s[j]),
        trail_spaces(s) < s.len() ==> !is_space(s[s.len() - trail_spaces(s) - 1]),
    decreases s.len(),
{
    if s.len() > 0 && is_space(s.last()) {
        lemma_trail_spaces(s.drop_last());
        assert forall|j: int| s.len() - trail_spaces(s) <= j < s.len() implies is_space(s[j]) by {
            if j < s.len() - 1 {
                assert(is_space(s.drop_last()[j]));
            }
        }
    }
}

/// The trimmed, non-blank entries of a line sequence, in order.
pub open spec fn nonblank_of(lines: Seq<Seq<u8>>) -> Seq<Seq<u8>>
    decreases lines.len(),
{
    if lines.len() == 0 {
        Seq::empty()
    } else {
        let rest = nonblank_of(lines.drop_first());
        if trimmed(lines.first()).len() > 0 {
            seq![trimmed(lines.first())] + rest
        } else {
            rest
        }
    }
}

/// The identifier candidates of an identity list: its trimmed, non-blank
/// lines, in order.
pub open spec fn candidates(data: Seq<u8>) -> Seq<Seq<u8>> {
    nonblank_of(split_lines(data))
}

/// Split `data` at line feeds.
fn split_at_newlines(data: &[u8]) -> (ls: Vec<Vec<u8>>)
    ensures
        ls@.map_values(|v: Vec<u8>| v@) == split_lines(data@),
    decreases data@.len(),
{
    let n = data.len();
    let mut k: usize = 0;
    while k < n && *slice_index_get(data, k) != 10
        invariant
            k <= n,
            n == data@.len(),
            forall|j: int| 0 <= j < k ==> data@[j] != 10,
        decreases n - k,
    {
        k += 1;
    }
    proof {
        lemma_find_nl(data@);
        if k < find_nl(data@) {
            assert(data@[k as int] != 10);
        }
        if find_nl(data@) < k {
            assert(data@[find_nl(data@)] != 10);
        }
        assert(k == find_nl(data@));
    }
    if k == n {
        let mut ls: Vec<Vec<u8>> = Vec::new();
        ls.push(slice_to_vec(data));
        proof {
            assert(ls@.map_values(|v: Vec<u8>| v@) =~= split_lines(data@));
        }
        ls
    } else {
        let head = slice_to_vec(slice_subrange(data, 0, k));
        let rest = slice_subrange(data, k + 1, n);
        let mut tail = split_at_newlines(rest);
        let mut ls: Vec<Vec<u8>> = Vec::new();
        ls.push(head);
        ls.append(&mut tail);
        proof {
            assert(ls@.map_values(|v: Vec<u8>| v@) =~= split_lines(data@));
        }
        ls
    }
}

/// Drop leading and trailing whitespace from `line`.
fn trim_bytes(line: &[u8]) -> (t: Vec<u8>)
    ensures
        t@ == trimmed(line@),
{
    let n = line.len();
    let mut lo: usize = 0;
    while lo < n && is_space_byte(*slice_index_get(line, lo))
        invariant
            lo <= n,
            n == line@.len(),
            forall|j: int| 0 <= j < lo ==> is_space(line@[j]),
        decreases n - lo,
    {
        lo += 1;
    }
    proof {
        lemma_lead_spaces(line@);
        if lo < lead_spaces(line@) {
            assert(is_space(line@[lo as int]));
        }
        if lead_spaces(line@) < lo {
            assert(!is_space(line@[lead_spaces(line@)]));
        }
        assert(lo == lead_spaces(line@));
    }
    if lo == n {
        return Vec::new();
    }
    let mut hi: usize = n;
    while hi > lo + 1 && is_space_byte(*slice_index_get(line, hi - 1))
        invariant
            lo < hi <= n,
            n == line@.len(),
            !is_space(line@[lo as int]),
            forall|j: int| hi <= j < n ==> is_space(line@[j]),
        decreases hi,
    {
        hi -= 1;
    }
    proof {
        lemma_trail_spaces(line@);
        if hi == lo + 1 && is_space(line@[hi - 1]) {
            assert(false);
        }
        assert(!is_space(line@[hi - 1]));
        if trail_spaces(line@) == n {
            assert(is_space(line@[lo as int]));
        }
        if n - hi < trail_spaces(line@) {
            assert(is_space(line@[hi - 1]));
        }
        if n - hi > trail_spaces(line@) {
            assert(!is_space(line@[n - trail_spaces(line@) - 1]));
            assert(is_space(line@[n - trail_spaces(line@) - 1]));
        }
        assert(n - hi == trail_spaces(line@));
        assert(hi - lo >= 1);
    }
    slice_to_vec(slice_subrange(line, lo, hi))
}

/// Parse a newline-delimited identity list. Blank lines (after trimming
/// whitespace) are skipped. Returns the identities of all non-blank lines
/// in order, or the configuration error naming the first non-blank line
/// that is not a well-formed identity.
pub fn parse_identity_list(data: &[u8]) -> (r: Result<Vec<Identity>, ConfigError>)
    ensures
        ({
            let cands = candidates(data@);
            match r {
                Ok(ids) => {
                    &&& ids@.len() == cands.len()
                    &&& forall|i: int|
                        0 <= i < cands.len() ==> identity_of(cands[i]) == Some(
                            (#[trigger] ids@[i]).bytes@,
                        )
                },
                Err(e) => {
                    &&& e matches ConfigError::InvalidIdentity { index }
                    &&& index < cands.len()
                    &&& identity_of(cands[index as int]) is None
                    &&& forall|j: int| 0 <= j < index ==> identity_of(#[trigger] cands[j]) is Some
                },
            }
        }),
{
    let lines = split_at_newlines(data);
    let ghost lviews = lines@.map_values(|v: Vec<u8>| v@);
    let mut out: Vec<Identity> = Vec::new();
    let ghost mut taken: Seq<Seq<u8>> = Seq::empty();
    proof {
        assert(lviews.skip(0) =~= lviews);
        assert(taken + nonblank_of(lviews) =~= candidates(data@));
    }
    let mut li: usize = 0;
    while li < lines.len()
        invariant
            li <= lines@.len(),
            lviews == lines@.map_values(|v: Vec<u8>| v@),
            lviews == split_lines(data@),
            candidates(data@) == taken + nonblank_of(lviews.skip(li as int)),
            taken.len() == out@.len(),
            forall|i: int|
                0 <= i < out@.len() ==> identity_of(taken[i]) == Some(
                    (#[trigger] out@[i]).bytes@,
                ),
        decreases lines@.len() - li,
    {
        let t = trim_bytes(lines[li].as_slice());
        proof {
            assert(lviews.skip(li as int).first() == lviews[li as int]);
            assert(lviews.skip(li as int).drop_first() =~= lviews.skip(li + 1));
            assert(t@ == trimmed(lviews[li as int]));
        }
        if t.len() > 0 {
            match parse_identity_line(t.as_slice()) {
                Some(id) => {
                    proof {
                        assert(nonblank_of(lviews.skip(li as int)) == seq![t@] + nonblank_of(
                            lviews.skip(li + 1),
                        ));
                        assert((taken + nonblank_of(lviews.skip(li as int)))[taken.len() as int]
                            == t@);
                        taken = taken.push(t@);
                        assert(taken + nonblank_of(lviews.skip(li + 1)) =~= candidates(data@));
                    }
                    out.push(id);
                },
                None => {
                    let index = out.len();
                    proof {
                        assert(nonblank_of(lviews.skip(li as int)) == seq![t@] + nonblank_of(
                            lviews.skip(li + 1),
                        ));
                        assert(candidates(data@)[index as int] == t@);
                        assert forall|j: int| 0 <= j < index implies identity_of(
                            #[trigger] candidates(data@)[j],
                        ) is Some by {
                            assert(candidates(data@)[j] == taken[j]);
                            assert(identity_of(taken[j]) == Some(out@[j].bytes@));
                        }
                    }
                    return Err(ConfigError::InvalidIdentity { index });
                },
            }
        } else {
            proof {
                assert(nonblank_of(lviews.skip(li as int)) == nonblank_of(lviews.skip(li + 1)));
            }
        }
        li += 1;
    }
    proof {
        assert(lviews.skip(li as int) =~= Seq::<Seq<u8>>::empty());
        assert(candidates(data@) =~= taken);
    }
    Ok(out)
}

} // verus!
