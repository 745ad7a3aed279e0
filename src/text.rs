//! Small string helpers over character sequences.
use vstd::prelude::*;

verus! {

/// Relies on String::push: appends one character.
#[verifier::external_body]
pub(crate) fn push_char(s: &mut String, c: char)
    ensures
        final(s)@ == old(s)@.push(c),
{
    s.push(c);
}

/// The pieces of `s` between occurrences of `sep`, empty pieces included:
/// one more piece than there are separators.
pub open spec fn split_on(s: Seq<char>, sep: char) -> Seq<Seq<char>>
    decreases s.len(),
{
    if s.len() == 0 {
        seq![Seq::empty()]
    } else {
        let parts = split_on(s.drop_last(), sep);
        if s.last() == sep {
            parts.push(Seq::empty())
        } else {
            parts.update(parts.len() - 1, parts.last().push(s.last()))
        }
    }
}

proof fn lemma_split_nonempty(s: Seq<char>, sep: char)
    ensures
        split_on(s, sep).len() >= 1,
    decreases s.len(),
{
    if s.len() > 0 {
        lemma_split_nonempty(s.drop_last(), sep);
    }
}

/// Splits `line` at every space, as the words of a line are counted.
pub fn split_spaces(line: &str) -> (r: Vec<String>)
    ensures
        r@.map_values(|p: String| p@) == split_on(line@, ' '),
{
    let n = line.unicode_len();
    let mut done: Vec<String> = Vec::new();
    let mut cur = String::new();
    let mut i: usize = 0;
    while i < n
        invariant
            n == line@.len(),
            i <= n,
            done@.map_values(|p: String| p@).push(cur@) == split_on(line@.take(i as int), ' '),
        decreases n - i,
    {
        let c = line.get_char(i);
        let ghost before = split_on(line@.take(i as int), ' ');
        proof {
            lemma_split_nonempty(line@.take(i as int), ' ');
        }
        assert(line@.take(i as int + 1).drop_last() =~= line@.take(i as int));
        if c == ' ' {
            done.push(cur);
            cur = String::new();
            assert(done@.map_values(|p: String| p@).push(cur@) =~= before.push(Seq::empty()));
        } else {
            let ghost d = done@.map_values(|p: String| p@);
            push_char(&mut cur, c);
            assert(d.push(cur@) =~= before.update(before.len() - 1, before.last().push(c)));
        }
        i += 1;
    }
    assert(line@.take(n as int) =~= line@);
    done.push(cur);
    assert(done@.map_values(|p: String| p@) =~= split_on(line@, ' '));
    done
}

/// Character-wise equality of two strings.
pub fn str_eq(a: &str, b: &str) -> (r: bool)
    ensures
        r == (a@ == b@),
{
    let n = a.unicode_len();
    if n != b.unicode_len() {
        return false;
    }
    let mut i: usize = 0;
    while i < n
        invariant
            n == a@.len(),
            n == b@.len(),
            i <= n,
            forall|j: int| 0 <= j < i ==> a@[j] == b@[j],
        decreases n - i,
    {
        if a.get_char(i) != b.get_char(i) {
            return false;
        }
        i += 1;
    }
    assert(a@ =~= b@);
    true
}

} // verus!
