use vstd::prelude::*;

verus! {

/// The position of the first `d` in `s`, if any.
pub open spec fn first_index(s: Seq<char>, d: char) -> Option<int>
    decreases s.len(),
{
    if s.len() == 0 {
        None
    } else if s[0] == d {
        Some(0)
    } else {
        match first_index(s.drop_first(), d) {
            Some(i) => Some(i + 1),
            None => None,
        }
    }
}

proof fn lemma_first_index(s: Seq<char>, d: char)
    ensures
        match first_index(s, d) {
            Some(i) => 0 <= i < s.len() && s[i] == d && forall|j: int| 0 <= j < i ==> s[j] != d,
            None => forall|j: int| 0 <= j < s.len() ==> s[j] != d,
        },
    decreases s.len(),
{
    if s.len() > 0 && s[0] != d {
        lemma_first_index(s.drop_first(), d);
        assert(forall|j: int| 1 <= j < s.len() ==> s[j] == s.drop_first()[j - 1]);
    }
}

/// Splits off the text before the first `delimiter`: it is returned, and `s` keeps
/// what follows the delimiter. Without a delimiter the whole text is returned and
/// `s` is left empty.
pub fn strtok(s: &mut Vec<char>, delimiter: char) -> (r: Vec<char>)
    ensures
        match first_index(old(s)@, delimiter) {
            Some(i) => r@ == old(s)@.subrange(0, i) && final(s)@ == old(s)@.subrange(
                i + 1,
                old(s)@.len() as int,
            ),
            None => r@ == old(s)@ && final(s)@.len() == 0,
        },
{
    proof {
        lemma_first_index(s@, delimiter);
    }
    let ghost orig = s@;
    let mut prefix: Vec<char> = Vec::new();
    let mut i: usize = 0;
    while i < s.len() && s[i] != delimiter
        invariant
            s@ == orig,
            i <= s@.len(),
            prefix@ == s@.subrange(0, i as int),
            forall|j: int| 0 <= j < i ==> s@[j] != delimiter,
        decreases s@.len() - i,
    {
        prefix.push(s[i]);
        i = i + 1;
        assert(prefix@ =~= s@.subrange(0, i as int));
    }
    let mut suffix: Vec<char> = Vec::new();
    if i < s.len() {
        let mut k: usize = i + 1;
        while k < s.len()
            invariant
                s@ == orig,
                i < k <= s@.len(),
                suffix@ == s@.subrange(i + 1, k as int),
            decreases s@.len() - k,
        {
            suffix.push(s[k]);
            k = k + 1;
            assert(suffix@ =~= s@.subrange(i + 1, k as int));
        }
    } else {
        assert(prefix@ =~= orig);
    }
    *s = suffix;
    proof {
        lemma_first_index(orig, delimiter);
    }
    prefix
}

} // verus!
