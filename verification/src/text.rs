//! Text as sequences of characters: the few operations that the readers
//! need, each with what it computes.
use vstd::prelude::*;

verus! {

/// Whether `s` begins with `prefix`.
pub open spec fn has_prefix(s: Seq<char>, prefix: Seq<char>) -> bool {
    prefix.len() <= s.len() && s.take(prefix.len() as int) == prefix
}

/// Whether `s` ends with `suffix`.
pub open spec fn has_suffix(s: Seq<char>, suffix: Seq<char>) -> bool {
    suffix.len() <= s.len() && s.skip(s.len() - suffix.len()) == suffix
}

/// The characters of `s`, one by one.
pub fn chars_of(s: &str) -> (v: Vec<char>)
    ensures
        v@ == s@,
{
    let mut v: Vec<char> = Vec::new();
    for c in it: s.chars()
        invariant
            v@ == it.seq().take(it.index() as int),
            it.seq() == s@,
    {
        v.push(c);
    }
    v
}

/// Whether the characters of `s` from `at` on begin with `pat`.
pub fn matches_at(s: &Vec<char>, at: usize, pat: &Vec<char>) -> (b: bool)
    requires
        at <= s.len(),
    ensures
        b == has_prefix(s@.skip(at as int), pat@),
{
    if pat.len() > s.len() - at {
        return false;
    }
    let mut i: usize = 0;
    while i < pat.len()
        invariant
            at <= s.len(),
            pat.len() <= s.len() - at,
            i <= pat.len(),
            forall|j: int| 0 <= j < i ==> s@[at + j] == pat@[j],
        decreases pat.len() - i,
    {
        if s[at + i] != pat[i] {
            return false;
        }
        i += 1;
    }
    assert(s@.skip(at as int).take(pat.len() as int) =~= pat@);
    true
}

/// Whether `s` begins with `prefix`.
pub fn starts_with(s: &str, prefix: &str) -> (b: bool)
    ensures
        b == has_prefix(s@, prefix@),
{
    let sv = chars_of(s);
    let pv = chars_of(prefix);
    assert(sv@.skip(0) =~= sv@);
    matches_at(&sv, 0, &pv)
}

/// Where `c` first stands in `s`: the length of `s` where it does not.
pub open spec fn first_index(s: Seq<char>, c: char) -> int
    decreases s.len(),
{
    if s.len() == 0 || s[0] == c {
        0
    } else {
        1 + first_index(s.drop_first(), c)
    }
}

/// The fields of `s` between the separators `sep`: one more than there are
/// separators, some of them empty where separators meet or stand at an end.
pub open spec fn split(s: Seq<char>, sep: char) -> Seq<Seq<char>>
    decreases s.len(),
{
    let i = first_index(s, sep);
    if 0 <= i < s.len() {
        seq![s.take(i)] + split(s.skip(i + 1), sep)
    } else {
        seq![s]
    }
}

/// `s` without the suffix `pat`, taken off as often as it is there.
pub open spec fn trim_end_matches(s: Seq<char>, pat: Seq<char>) -> Seq<char>
    decreases s.len(),
{
    if pat.len() > 0 && has_suffix(s, pat) {
        trim_end_matches(s.take(s.len() - pat.len()), pat)
    } else {
        s
    }
}

/// `k` is where `c` first stands in `s` if `c` stands at none of the
/// places before `k`, and `k` is the end of `s` or holds `c`.
pub proof fn lemma_first_index(s: Seq<char>, c: char, k: int)
    requires
        0 <= k <= s.len(),
        forall|j: int| 0 <= j < k ==> s[j] != c,
        k == s.len() || s[k] == c,
    ensures
        first_index(s, c) == k,
    decreases k,
{
    if k > 0 {
        let rest = s.drop_first();
        lemma_first_index(rest, c, k - 1);
    }
}

/// A field that holds no separator, then a separator, then `rest`: the
/// fields are that field and then those of `rest`.
pub proof fn lemma_split_field(field: Seq<char>, sep: char, rest: Seq<char>)
    requires
        !field.contains(sep),
    ensures
        split(field + seq![sep] + rest, sep) == seq![field] + split(rest, sep),
{
    let s = field + seq![sep] + rest;
    lemma_first_index(s, sep, field.len() as int);
    assert(s.take(field.len() as int) =~= field);
    assert(s.skip(field.len() as int + 1) =~= rest);
}

/// A text that holds no separator is one field.
pub proof fn lemma_split_last(field: Seq<char>, sep: char)
    requires
        !field.contains(sep),
    ensures
        split(field, sep) == seq![field],
{
    lemma_first_index(field, sep, field.len() as int);
}

/// Where `c` first stands in `s` from `from` on and before `to`: `to` where
/// it does not.
pub fn find_char(s: &Vec<char>, from: usize, to: usize, c: char) -> (at: usize)
    requires
        from <= to <= s.len(),
    ensures
        from <= at <= to,
        at - from == first_index(s@.subrange(from as int, to as int), c),
{
    let mut i: usize = from;
    while i < to && s[i] != c
        invariant
            from <= i <= to <= s.len(),
            forall|j: int| from <= j < i ==> s@[j] != c,
        decreases to - i,
    {
        i += 1;
    }
    proof {
        lemma_first_index(s@.subrange(from as int, to as int), c, i - from);
    }
    i
}

/// The places of the fields of `s` between the separators `sep`, each as
/// the index of its first character and that after its last.
pub fn split_ranges(s: &Vec<char>, sep: char) -> (ranges: Vec<(usize, usize)>)
    ensures
        ranges.len() == split(s@, sep).len(),
        forall|k: int|
            0 <= k < ranges.len() ==> {
                &&& (#[trigger] ranges[k]).0 <= ranges[k].1 <= s.len()
                &&& split(s@, sep)[k] == s@.subrange(ranges[k].0 as int, ranges[k].1 as int)
            },
{
    let mut ranges: Vec<(usize, usize)> = Vec::new();
    let mut start: usize = 0;
    let ghost mut done: Seq<Seq<char>> = Seq::empty();
    assert(s@.skip(0) =~= s@);
    loop
        invariant
            start <= s.len(),
            ranges.len() == done.len(),
            split(s@, sep) == done + split(s@.skip(start as int), sep),
            forall|k: int|
                0 <= k < ranges.len() ==> {
                    &&& (#[trigger] ranges[k]).0 <= ranges[k].1 <= s.len()
                    &&& done[k] == s@.subrange(ranges[k].0 as int, ranges[k].1 as int)
                },
        decreases s.len() - start,
    {
        let at: usize = find_char(s, start, s.len(), sep);
        let ghost rest = s@.skip(start as int);
        ranges.push((start, at));
        if at == s.len() {
            proof {
                done = done.push(rest);
            }
            return ranges;
        }
        proof {
            let field = s@.subrange(start as int, at as int);
            assert(rest.take(at - start) =~= field);
            assert(rest.skip(at - start + 1) =~= s@.skip(at + 1));
            done = done.push(field);
        }
        start = at + 1;
    }
}

/// How much of `s` is left when the suffix `pat` is taken off as often as
/// it is there.
pub fn trimmed_len(s: &Vec<char>, pat: &Vec<char>) -> (end: usize)
    ensures
        end <= s.len(),
        s@.take(end as int) == trim_end_matches(s@, pat@),
{
    let mut end: usize = s.len();
    assert(s@.take(end as int) =~= s@);
    if pat.len() == 0 {
        return end;
    }
    while end >= pat.len() && matches_at(s, end - pat.len(), pat)
        invariant
            end <= s.len(),
            pat.len() > 0,
            trim_end_matches(s@, pat@) == trim_end_matches(s@.take(end as int), pat@),
        decreases end,
    {
        proof {
            let cut = s@.take(end as int);
            assert(cut.skip(cut.len() - pat.len()) =~= s@.skip(end - pat.len()).take(
                pat.len() as int,
            ));
            assert(cut.take(cut.len() - pat.len()) =~= s@.take(end - pat.len()));
        }
        end -= pat.len();
    }
    proof {
        let cut = s@.take(end as int);
        if end >= pat.len() {
            assert(cut.skip(cut.len() - pat.len()) =~= s@.skip(end - pat.len()).take(
                pat.len() as int,
            ));
        }
    }
    end
}

} // verus!
