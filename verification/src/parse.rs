//! Parsing of the configured target list: a comma-separated string of pids.
//!
//! Tokens are the maximal comma-free segments of the input. Empty tokens
//! (after trimming ASCII whitespace) are ignored, duplicates collapse in the
//! resulting set, and the first non-empty token that is not a decimal `u32`
//! makes the whole parse fail with a message naming that token.

use vstd::prelude::*;
use vstd::string::StrSliceExecFns;
use vstd::string::StringExecFns;
use std::collections::HashSet;

verus! {

broadcast use vstd::std_specs::hash::group_hash_axioms;

/// ASCII whitespace, as trimmed from both ends of a token.
pub open spec fn is_space(c: char) -> bool {
    c == ' ' || c == '\t' || c == '\n' || c == '\r'
}

/// A decimal digit.
pub open spec fn is_digit(c: char) -> bool {
    48 <= c as u32 && c as u32 <= 57
}

/// Numeric value of a decimal digit.
pub open spec fn digit_val(c: char) -> nat
    recommends
        is_digit(c),
{
    (c as u32 - 48) as nat
}

/// Every character of `s` is a decimal digit.
pub open spec fn all_digits(s: Seq<char>) -> bool {
    forall|i: int| 0 <= i < s.len() ==> is_digit(#[trigger] s[i])
}

/// Value of a sequence of decimal digits, most significant first.
pub open spec fn dec_value(s: Seq<char>) -> nat
    recommends
        all_digits(s),
    decreases s.len(),
{
    if s.len() == 0 {
        0
    } else {
        dec_value(s.drop_last()) * 10 + digit_val(s.last())
    }
}

/// A non-empty token that denotes a pid: decimal digits whose value fits in `u32`.
pub open spec fn valid_pid_token(t: Seq<char>) -> bool {
    t.len() > 0 && all_digits(t) && dec_value(t) <= u32::MAX
}

/// `[i, j)` is one comma-separated token of `s`: a maximal comma-free run.
pub open spec fn is_segment(s: Seq<char>, i: int, j: int) -> bool {
    &&& 0 <= i <= j <= s.len()
    &&& (i == 0 || s[i - 1] == ',')
    &&& (j == s.len() || s[j] == ',')
    &&& forall|x: int| i <= x < j ==> s[x] != ','
}

/// Index of the first non-space character at or after `i` (or `j` if none).
pub open spec fn skip_spaces(s: Seq<char>, i: int, j: int) -> int
    recommends
        0 <= i <= j <= s.len(),
    decreases j - i when i <= j
{
    if i < j && is_space(s[i]) {
        skip_spaces(s, i + 1, j)
    } else {
        i
    }
}

/// Index just after the last non-space character before `j` (or `i` if none).
pub open spec fn rskip_spaces(s: Seq<char>, i: int, j: int) -> int
    recommends
        0 <= i <= j <= s.len(),
    decreases j - i when i <= j
{
    if i < j && is_space(s[j - 1]) {
        rskip_spaces(s, i, j - 1)
    } else {
        j
    }
}

/// Lower bound of the trimmed content of segment `[i, j)`.
pub open spec fn token_lo(s: Seq<char>, i: int, j: int) -> int {
    skip_spaces(s, i, j)
}

/// Upper bound of the trimmed content of segment `[i, j)`.
pub open spec fn token_hi(s: Seq<char>, i: int, j: int) -> int {
    rskip_spaces(s, token_lo(s, i, j), j)
}

/// The trimmed content of segment `[i, j)`.
pub open spec fn seg_token(s: Seq<char>, i: int, j: int) -> Seq<char> {
    s.subrange(token_lo(s, i, j), token_hi(s, i, j))
}

/// Every token of `s` is empty after trimming.
pub open spec fn all_tokens_empty(s: Seq<char>) -> bool {
    forall|i: int, j: int| #[trigger] is_segment(s, i, j) ==> seg_token(s, i, j).len() == 0
}

/// Every non-empty token of `s` is a valid pid.
pub open spec fn tokens_all_valid(s: Seq<char>) -> bool {
    forall|i: int, j: int|
        #[trigger] is_segment(s, i, j) && seg_token(s, i, j).len() > 0 ==> valid_pid_token(
            seg_token(s, i, j),
        )
}

/// Segment `[i, j)` holds the first non-empty invalid token of `s`.
pub open spec fn first_invalid_segment(s: Seq<char>, i: int, j: int) -> bool {
    &&& is_segment(s, i, j)
    &&& seg_token(s, i, j).len() > 0
    &&& !valid_pid_token(seg_token(s, i, j))
    &&& forall|i2: int, j2: int|
        #[trigger] is_segment(s, i2, j2) && i2 < i ==> seg_token(s, i2, j2).len() == 0
            || valid_pid_token(seg_token(s, i2, j2))
}

/// The set of pids denoted by the valid tokens of `s` whose start lies before `bound`.
pub open spec fn target_set_before(s: Seq<char>, bound: int) -> Set<u32> {
    Set::new(
        |p: u32|
            exists|i: int, j: int|
                #[trigger] is_segment(s, i, j) && i < bound && valid_pid_token(seg_token(s, i, j))
                    && dec_value(seg_token(s, i, j)) == p as nat,
    )
}

/// The set of pids denoted by the valid tokens of `s`.
pub open spec fn target_set(s: Seq<char>) -> Set<u32> {
    target_set_before(s, s.len() as int + 1)
}

/// The error message naming an invalid token.
pub open spec fn invalid_pid_msg(t: Seq<char>) -> Seq<char> {
    "Invalid PID: "@ + t
}

/// The error message for an input without any pid.
pub open spec fn no_valid_msg() -> Seq<char> {
    "No valid PIDs provided"@
}

/// Two tokens of the same string are the same or strictly ordered.
proof fn lemma_segment_trichotomy(s: Seq<char>, i1: int, j1: int, i2: int, j2: int)
    requires
        is_segment(s, i1, j1),
        is_segment(s, i2, j2),
    ensures
        (i1 == i2 && j1 == j2) || j1 < i2 || j2 < i1,
{
    if i1 < i2 {
        // s[i2 - 1] is a comma, so it cannot lie inside [i1, j1).
        assert(s[i2 - 1] == ',');
        if j1 >= i2 {
            assert(i1 <= i2 - 1 < j1);
            assert(false);
        }
    } else if i2 < i1 {
        assert(s[i1 - 1] == ',');
        if j2 >= i1 {
            assert(i2 <= i1 - 1 < j2);
            assert(false);
        }
    } else {
        // same start: the ends agree, else one segment holds the other's comma
        if j1 < j2 {
            assert(j1 == s.len() || s[j1] == ',');
            assert(i2 <= j1 < j2);
            assert(false);
        } else if j2 < j1 {
            assert(j2 == s.len() || s[j2] == ',');
            assert(i1 <= j2 < j1);
            assert(false);
        }
    }
}

/// `skip_spaces` lands on the first non-space position, skipping only spaces.
proof fn lemma_skip_spaces(s: Seq<char>, i: int, j: int)
    requires
        0 <= i <= j <= s.len(),
    ensures
        i <= skip_spaces(s, i, j) <= j,
        forall|x: int| i <= x < skip_spaces(s, i, j) ==> is_space(#[trigger] s[x]),
        skip_spaces(s, i, j) == j || !is_space(s[skip_spaces(s, i, j)]),
    decreases j - i,
{
    if i < j && is_space(s[i]) {
        lemma_skip_spaces(s, i + 1, j);
    }
}

/// `rskip_spaces` lands just after the last non-space position.
proof fn lemma_rskip_spaces(s: Seq<char>, i: int, j: int)
    requires
        0 <= i <= j <= s.len(),
    ensures
        i <= rskip_spaces(s, i, j) <= j,
        forall|x: int| rskip_spaces(s, i, j) <= x < j ==> is_space(#[trigger] s[x]),
        rskip_spaces(s, i, j) == i || !is_space(s[rskip_spaces(s, i, j) - 1]),
    decreases j - i,
{
    if i < j && is_space(s[j - 1]) {
        lemma_rskip_spaces(s, i, j - 1);
    }
}

/// For a digit string, the value of a prefix never exceeds the whole value.
proof fn lemma_dec_value_prefix(t: Seq<char>, i: int)
    requires
        all_digits(t),
        0 <= i <= t.len(),
    ensures
        dec_value(t.take(i)) <= dec_value(t),
    decreases t.len() - i,
{
    if i == t.len() {
        assert(t.take(i) =~= t);
    } else {
        assert(t.take(i + 1).drop_last() =~= t.take(i));
        assert(t.take(i + 1).last() == t[i]);
        assert(dec_value(t.take(i + 1)) == dec_value(t.take(i)) * 10 + digit_val(t[i]));
        assert(dec_value(t.take(i)) * 10 >= dec_value(t.take(i))) by (nonlinear_arith);
        lemma_dec_value_prefix(t, i + 1);
    }
}

/// Whether `c` is ASCII whitespace.
fn is_space_char(c: char) -> (r: bool)
    ensures
        r == is_space(c),
{
    c == ' ' || c == '\t' || c == '\n' || c == '\r'
}

/// Parses a comma-separated list of pids into a de-duplicated set.
///
/// Empty tokens are ignored and whitespace around tokens is trimmed. The
/// first non-empty token that is not a decimal `u32` yields an error naming
/// it; an input with no non-empty token yields an error saying so.
pub fn parse_target_pids(targets_str: &str) -> (r: Result<HashSet<u32>, String>)
    ensures
        tokens_all_valid(targets_str@) && !all_tokens_empty(targets_str@) ==> r is Ok,
        r matches Ok(pids) ==> tokens_all_valid(targets_str@) && !all_tokens_empty(targets_str@)
            && pids@ == target_set(targets_str@),
        r matches Err(m) ==> (all_tokens_empty(targets_str@) && m@ == no_valid_msg()) || (
        exists|i: int, j: int|
            #[trigger] first_invalid_segment(targets_str@, i, j) && m@ == invalid_pid_msg(
                seg_token(targets_str@, i, j),
            )),
{
    let ghost s = targets_str@;
    let n: usize = targets_str.unicode_len();
    let mut pids: HashSet<u32> = HashSet::new();
    let mut found: bool = false;
    let mut start: usize = 0;
    proof {
        assert(pids@ =~= target_set_before(s, 0));
    }

    loop
        invariant_except_break
            n == s.len(),
            s == targets_str@,
            0 <= start <= n,
            start == 0 || s[start - 1] == ',',
            forall|i: int, j: int|
                #[trigger] is_segment(s, i, j) && i < start ==> seg_token(s, i, j).len() == 0
                    || valid_pid_token(seg_token(s, i, j)),
            found <==> exists|i: int, j: int|
                #[trigger] is_segment(s, i, j) && i < start && seg_token(s, i, j).len() > 0,
            pids@ == target_set_before(s, start as int),
        ensures
            n == s.len(),
            tokens_all_valid(s),
            found <==> !all_tokens_empty(s),
            pids@ == target_set(s),
        decreases n - start,
    {
        // find the end of the current token: the next comma or the end of input
        let mut end: usize = start;
        while end < n && !is_comma_at(targets_str, end)
            invariant
                n == s.len(),
                s == targets_str@,
                start <= end <= n,
                forall|x: int| start <= x < end ==> s[x] != ',',
            decreases n - end,
        {
            end = end + 1;
        }
        assert(is_segment(s, start as int, end as int));

        // trim ASCII whitespace from both ends
        let mut ts: usize = start;
        let mut te: usize = end;
        while ts < te && is_space_char(targets_str.get_char(ts))
            invariant
                n == s.len(),
                s == targets_str@,
                start <= ts <= te,
                te == end <= n,
                skip_spaces(s, ts as int, end as int) == skip_spaces(s, start as int, end as int),
            decreases te - ts,
        {
            ts = ts + 1;
        }
        assert(ts as int == token_lo(s, start as int, end as int));
        while te > ts && is_space_char(targets_str.get_char(te - 1))
            invariant
                n == s.len(),
                s == targets_str@,
                ts <= te,
                te <= end <= n,
                ts as int == token_lo(s, start as int, end as int),
                rskip_spaces(s, ts as int, te as int) == rskip_spaces(
                    s,
                    ts as int,
                    end as int,
                ),
            decreases te,
        {
            te = te - 1;
        }
        assert(te as int == token_hi(s, start as int, end as int));
        let ghost tok = seg_token(s, start as int, end as int);
        assert(tok =~= s.subrange(ts as int, te as int));

        if ts < te {
            // non-empty token: it must be a decimal u32
            let mut val: u32 = 0;
            let mut i: usize = ts;
            let mut bad: bool = false;
            while i < te && !bad
                invariant
                    n == s.len(),
                    s == targets_str@,
                    ts <= i <= te <= n,
                    tok == s.subrange(ts as int, te as int),
                    !bad ==> {
                        &&& forall|x: int| ts <= x < i ==> is_digit(#[trigger] s[x])
                        &&& val as nat == dec_value(s.subrange(ts as int, i as int))
                    },
                    bad ==> !valid_pid_token(tok),
                decreases te - i + (if bad {
                    0int
                } else {
                    1int
                }),
            {
                let c = targets_str.get_char(i);
                let cv = c as u32;
                if cv < 48 || cv > 57 {
                    assert(!all_digits(tok)) by {
                        assert(tok[i - ts] == s[i as int]);
                    }
                    bad = true;
                } else {
                    let d: u32 = cv - 48;
                    if val > (u32::MAX - d) / 10 {
                        // the value would overflow u32, so the token is invalid
                        proof {
                            let pre = s.subrange(ts as int, i as int + 1);
                            assert(pre.drop_last() =~= s.subrange(ts as int, i as int));
                            assert(dec_value(pre) == val as nat * 10 + d as nat);
                            assert(val as int * 10 + d > u32::MAX) by (nonlinear_arith)
                                requires
                                    val as int > (u32::MAX - d) as int / 10,
                                    0 <= d <= 9,
                            ;
                            if all_digits(tok) {
                                assert(pre =~= tok.take(i - ts + 1));
                                lemma_dec_value_prefix(tok, i - ts + 1);
                                assert(dec_value(tok) > u32::MAX);
                            }
                            assert(!valid_pid_token(tok));
                        }
                        bad = true;
                    } else {
                        proof {
                            let pre = s.subrange(ts as int, i as int + 1);
                            assert(pre.drop_last() =~= s.subrange(ts as int, i as int));
                            assert(val as int * 10 + d <= u32::MAX) by (nonlinear_arith)
                                requires
                                    val as int <= (u32::MAX - d) as int / 10,
                                    0 <= d <= 9,
                            ;
                        }
                        val = val * 10 + d;
                        i = i + 1;
                    }
                }
            }
            if bad {
                let token_str = targets_str.substring_char(ts, te);
                let mut msg = "Invalid PID: ".to_owned();
                msg.append(token_str);
                proof {
                    assert(first_invalid_segment(s, start as int, end as int));
                }
                return Err(msg);
            }
            proof {
                assert(tok =~= s.subrange(ts as int, te as int));
                assert(valid_pid_token(tok)) by {
                    assert(forall|x: int|
                        0 <= x < tok.len() ==> is_digit(#[trigger] tok[x]) && tok[x] == s[ts + x]);
                    assert(dec_value(tok) == val as nat);
                }
            }
            let ghost old_pids = pids@;
            pids.insert(val);
            found = true;
            proof {
                assert(pids@ =~= target_set_before(s, end as int + 1)) by {
                    assert forall|p: u32| target_set_before(s, end as int + 1).contains(p)
                        implies old_pids.insert(val).contains(p) by {
                        let (i2, j2) = choose|i2: int, j2: int|
                            #[trigger] is_segment(s, i2, j2) && i2 < end as int + 1
                                && valid_pid_token(seg_token(s, i2, j2)) && dec_value(
                                seg_token(s, i2, j2),
                            ) == p as nat;
                        lemma_segment_trichotomy(s, start as int, end as int, i2, j2);
                        if i2 == start as int && j2 == end as int {
                            assert(p == val);
                        } else {
                            assert(i2 < start as int);
                            assert(target_set_before(s, start as int).contains(p));
                        }
                    }
                    assert forall|p: u32| old_pids.insert(val).contains(p)
                        implies target_set_before(s, end as int + 1).contains(p) by {
                        if p == val {
                            assert(is_segment(s, start as int, end as int) && (start as int)
                                < end as int + 1 && valid_pid_token(
                                seg_token(s, start as int, end as int),
                            ) && dec_value(seg_token(s, start as int, end as int)) == p as nat);
                        } else {
                            let (i2, j2) = choose|i2: int, j2: int|
                                #[trigger] is_segment(s, i2, j2) && i2 < start as int
                                    && valid_pid_token(seg_token(s, i2, j2)) && dec_value(
                                    seg_token(s, i2, j2),
                                ) == p as nat;
                            assert(is_segment(s, i2, j2) && i2 < end as int + 1);
                        }
                    }
                }
            }
        } else {
            proof {
                assert(pids@ =~= target_set_before(s, end as int + 1)) by {
                    assert forall|p: u32| target_set_before(s, end as int + 1).contains(p)
                        implies target_set_before(s, start as int).contains(p) by {
                        let (i2, j2) = choose|i2: int, j2: int|
                            #[trigger] is_segment(s, i2, j2) && i2 < end as int + 1
                                && valid_pid_token(seg_token(s, i2, j2)) && dec_value(
                                seg_token(s, i2, j2),
                            ) == p as nat;
                        lemma_segment_trichotomy(s, start as int, end as int, i2, j2);
                    }
                    assert forall|p: u32| target_set_before(s, start as int).contains(p)
                        implies target_set_before(s, end as int + 1).contains(p) by {
                        let (i2, j2) = choose|i2: int, j2: int|
                            #[trigger] is_segment(s, i2, j2) && i2 < start as int
                                && valid_pid_token(seg_token(s, i2, j2)) && dec_value(
                                seg_token(s, i2, j2),
                            ) == p as nat;
                        assert(is_segment(s, i2, j2) && i2 < end as int + 1);
                    }
                }
            }
        }

        proof {
            // every token starting before end + 1 has now been checked
            assert forall|i2: int, j2: int|
                #[trigger] is_segment(s, i2, j2) && i2 < end as int + 1 implies seg_token(
                s,
                i2,
                j2,
            ).len() == 0 || valid_pid_token(seg_token(s, i2, j2)) by {
                lemma_segment_trichotomy(s, start as int, end as int, i2, j2);
            }
            if found {
                if ts < te {
                    assert(is_segment(s, start as int, end as int) && (start as int) < end as int
                        + 1 && seg_token(s, start as int, end as int).len() > 0);
                } else {
                    let (i2, j2) = choose|i2: int, j2: int|
                        #[trigger] is_segment(s, i2, j2) && i2 < start as int && seg_token(
                            s,
                            i2,
                            j2,
                        ).len() > 0;
                    assert(is_segment(s, i2, j2) && i2 < end as int + 1 && seg_token(
                        s,
                        i2,
                        j2,
                    ).len() > 0);
                }
            } else {
                assert forall|i2: int, j2: int|
                    #[trigger] is_segment(s, i2, j2) && i2 < end as int + 1 implies seg_token(
                    s,
                    i2,
                    j2,
                ).len() == 0 by {
                    lemma_segment_trichotomy(s, start as int, end as int, i2, j2);
                }
            }
        }

        if end == n {
            proof {
                assert forall|i2: int, j2: int| #[trigger] is_segment(s, i2, j2) implies i2
                    < end as int + 1 by {}
                assert(pids@ =~= target_set(s)) by {
                    assert(target_set_before(s, end as int + 1) =~= target_set_before(
                        s,
                        s.len() as int + 1,
                    ));
                }
            }
            break;
        }
        start = end + 1;
    }

    if !found {
        return Err("No valid PIDs provided".to_owned());
    }
    Ok(pids)
}

/// Whether the character at `i` is a comma.
fn is_comma_at(s: &str, i: usize) -> (r: bool)
    requires
        i < s@.len(),
    ensures
        r == (s@[i as int] == ','),
{
    s.get_char(i) == ','
}

} // verus!
