//! Launch-command sanitising: field codes out, whitespace runs collapsed.
use vstd::prelude::*;
use crate::text::chars_of;
use crate::text::string_of;

verus! {

/// The letters of the field codes that a launch command may hold (`%f`, `%U`,
/// ...), in the order in which they are removed.
pub open spec fn field_code_letters() -> Seq<char> {
    seq!['f', 'F', 'u', 'U', 'd', 'D', 'n', 'N', 'i', 'c', 'k', 'v', 'm']
}

/// The field code with letter `l`.
pub open spec fn field_code(l: char) -> Seq<char> {
    seq!['%', l]
}

/// `s` with every occurrence of the non-empty `pat` removed, matches taken
/// from the left without overlap.
pub open spec fn remove_all(s: Seq<char>, pat: Seq<char>) -> Seq<char>
    decreases s.len(),
{
    if pat.len() == 0 || s.len() < pat.len() {
        s
    } else if s.subrange(0, pat.len() as int) == pat {
        remove_all(s.subrange(pat.len() as int, s.len() as int), pat)
    } else {
        seq![s[0]] + remove_all(s.subrange(1, s.len() as int), pat)
    }
}

/// `s` after removing the first `k` field codes, one after the other.
pub open spec fn strip_codes_upto(s: Seq<char>, k: nat) -> Seq<char>
    decreases k,
{
    if k == 0 {
        s
    } else {
        remove_all(strip_codes_upto(s, (k - 1) as nat), field_code(field_code_letters()[k - 1]))
    }
}

/// `s` without any field code.
pub open spec fn strip_field_codes(s: Seq<char>) -> Seq<char> {
    strip_codes_upto(s, field_code_letters().len())
}

/// The characters of Unicode's White_Space property.
pub open spec fn is_space(c: char) -> bool {
    ||| '\u{9}' <= c <= '\u{d}'
    ||| c == ' '
    ||| c == '\u{85}'
    ||| c == '\u{a0}'
    ||| c == '\u{1680}'
    ||| '\u{2000}' <= c <= '\u{200a}'
    ||| c == '\u{2028}'
    ||| c == '\u{2029}'
    ||| c == '\u{202f}'
    ||| c == '\u{205f}'
    ||| c == '\u{3000}'
}

/// The words of `s` (maximal runs of non-space characters) joined by single
/// spaces: every non-space character is kept, and one space stands before
/// each word but the first.
pub open spec fn collapse_spaces(s: Seq<char>) -> Seq<char>
    decreases s.len(),
{
    if s.len() == 0 {
        seq![]
    } else {
        let prev = collapse_spaces(s.drop_last());
        let c = s.last();
        if is_space(c) {
            prev
        } else if s.len() >= 2 && !is_space(s[s.len() - 2]) {
            prev.push(c)
        } else if prev.len() == 0 {
            prev.push(c)
        } else {
            prev.push(' ').push(c)
        }
    }
}

/// The sanitised form of a launch command.
pub open spec fn clean_command(s: Seq<char>) -> Seq<char> {
    collapse_spaces(strip_field_codes(s))
}

/// Whether `c` has Unicode's White_Space property.
pub fn is_space_char(c: char) -> (r: bool)
    ensures
        r == is_space(c),
{
    ('\u{9}' <= c && c <= '\u{d}') || c == ' ' || c == '\u{85}' || c == '\u{a0}' || c == '\u{1680}'
        || ('\u{2000}' <= c && c <= '\u{200a}') || c == '\u{2028}' || c == '\u{2029}' || c
        == '\u{202f}' || c == '\u{205f}' || c == '\u{3000}'
}

/// `s` with every occurrence of the field code `%letter` removed.
fn remove_code(s: &Vec<char>, letter: char) -> (r: Vec<char>)
    ensures
        r@ == remove_all(s@, field_code(letter)),
{
    let ghost pat = field_code(letter);
    let n = s.len();
    let mut out: Vec<char> = Vec::new();
    let mut i: usize = 0;
    assert(s@.subrange(0, n as int) =~= s@);
    assert(out@ + remove_all(s@, pat) =~= remove_all(s@, pat));
    while i < n
        invariant
            n == s@.len(),
            i <= n,
            pat == field_code(letter),
            out@ + remove_all(s@.subrange(i as int, n as int), pat) == remove_all(s@, pat),
        decreases n - i,
    {
        let ghost rest = s@.subrange(i as int, n as int);
        if i + 1 < n && s[i] == '%' && s[i + 1] == letter {
            assert(rest.subrange(0, 2) =~= pat);
            assert(rest.subrange(2, rest.len() as int) =~= s@.subrange(i + 2, n as int));
            i = i + 2;
        } else {
            proof {
                if rest.len() >= 2nat {
                    assert(rest.subrange(0, 2) != pat) by {
                        assert(rest.subrange(0, 2)[0] == s@[i as int]);
                        assert(rest.subrange(0, 2)[1] == s@[i + 1]);
                    }
                    assert(rest.subrange(1, rest.len() as int) =~= s@.subrange(i + 1, n as int));
                    assert(out@ + remove_all(rest, pat) =~= out@.push(s@[i as int]) + remove_all(
                        s@.subrange(i + 1, n as int),
                        pat,
                    ));
                } else {
                    assert(remove_all(rest, pat) == rest);
                    assert(rest =~= seq![s@[i as int]]);
                    assert(s@.subrange(i + 1, n as int) =~= seq![]);
                    assert(remove_all(s@.subrange(i + 1, n as int), pat) =~= seq![]);
                    assert(out@ + remove_all(rest, pat) =~= out@.push(s@[i as int]) + remove_all(
                        s@.subrange(i + 1, n as int),
                        pat,
                    ));
                }
            }
            out.push(s[i]);
            i = i + 1;
        }
    }
    assert(s@.subrange(n as int, n as int) =~= seq![]);
    assert(out@ + remove_all(seq![], pat) =~= out@);
    out
}

/// `s` with its words joined by single spaces.
fn collapse_runs(s: &Vec<char>) -> (r: Vec<char>)
    ensures
        r@ == collapse_spaces(s@),
{
    let n = s.len();
    let mut out: Vec<char> = Vec::new();
    let mut i: usize = 0;
    while i < n
        invariant
            n == s@.len(),
            i <= n,
            out@ == collapse_spaces(s@.subrange(0, i as int)),
        decreases n - i,
    {
        let ghost next = s@.subrange(0, i + 1);
        assert(next.drop_last() =~= s@.subrange(0, i as int));
        assert(next.last() == s@[i as int]);
        let c = s[i];
        if is_space_char(c) {
        } else if i >= 1 && !is_space_char(s[i - 1]) {
            assert(next[next.len() - 2] == s@[i - 1]);
            out.push(c);
        } else if out.len() == 0 {
            out.push(c);
        } else {
            out.push(' ');
            out.push(c);
        }
        i = i + 1;
    }
    assert(s@.subrange(0, n as int) =~= s@);
    out
}

/// Removes the field codes from a launch command and collapses each run of
/// whitespace into one space, with none at either end.
pub fn clean_exec_command(exec: &str) -> (r: String)
    ensures
        r@ == clean_command(exec@),
{
    let letters: [char; 13] = ['f', 'F', 'u', 'U', 'd', 'D', 'n', 'N', 'i', 'c', 'k', 'v', 'm'];
    assert(letters@ =~= field_code_letters());
    let mut cur = chars_of(exec);
    let mut k: usize = 0;
    while k < 13
        invariant
            k <= 13,
            letters@ == field_code_letters(),
            cur@ == strip_codes_upto(exec@, k as nat),
        decreases 13 - k,
    {
        cur = remove_code(&cur, letters[k]);
        k = k + 1;
    }
    let out = collapse_runs(&cur);
    string_of(out.as_slice())
}

} // verus!
