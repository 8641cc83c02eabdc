//! Lists of everything of a kind, which bound how long a search can go on.

use vstd::prelude::*;
use vstd::set_lib::lemma_len_subset;

verus! {

/// All pairs of an item of the first list and one of the second.
pub open spec fn pairs<A, B>(a: Seq<A>, b: Seq<B>) -> Seq<(A, B)>
    decreases a.len(),
{
    if a.len() == 0 {
        Seq::empty()
    } else {
        pairs(a.drop_last(), b) + b.map_values(|y: B| (a.last(), y))
    }
}

/// Every pair is listed.
pub proof fn pairs_complete<A, B>(a: Seq<A>, b: Seq<B>, x: A, y: B)
    requires
        a.contains(x),
        b.contains(y),
    ensures
        pairs(a, b).contains((x, y)),
    decreases a.len(),
{
    let front = a.drop_last();
    let before = pairs(front, b);
    let last = b.map_values(|y: B| (a.last(), y));
    if a.last() == x {
        let j = choose|j: int| 0 <= j < b.len() && b[j] == y;
        assert(last[j] == (x, y));
        assert(pairs(a, b)[before.len() + j] == (x, y));
    } else {
        let i = choose|i: int| 0 <= i < a.len() && a[i] == x;
        assert(front[i] == x);
        pairs_complete(front, b, x, y);
        let k = choose|k: int| 0 <= k < before.len() && before[k] == (x, y);
        assert(pairs(a, b)[k] == (x, y));
    }
}

/// All words of at most `n` letters.
pub open spec fn words<T>(letters: Seq<T>, n: nat) -> Seq<Seq<T>>
    decreases n,
{
    if n == 0 {
        seq![Seq::empty()]
    } else {
        let shorter = words(letters, (n - 1) as nat);
        shorter + pairs(shorter, letters).map_values(|p: (Seq<T>, T)| p.0.push(p.1))
    }
}

/// Every word of the letters is listed.
pub proof fn words_complete<T>(letters: Seq<T>, n: nat, word: Seq<T>)
    requires
        word.len() <= n,
        forall|i: int| 0 <= i < word.len() ==> letters.contains(#[trigger] word[i]),
    ensures
        words(letters, n).contains(word),
    decreases n,
{
    if n == 0 {
        assert(word =~= Seq::<T>::empty());
        assert(words(letters, n)[0] == word);
    } else {
        let shorter = words(letters, (n - 1) as nat);
        let all = words(letters, n);
        if word.len() < n {
            words_complete(letters, (n - 1) as nat, word);
            let k = choose|k: int| 0 <= k < shorter.len() && shorter[k] == word;
            assert(all[k] == word);
        } else {
            let front = word.drop_last();
            assert forall|i: int| 0 <= i < front.len() implies letters.contains(
                #[trigger] front[i],
            ) by {
                assert(front[i] == word[i]);
            }
            words_complete(letters, (n - 1) as nat, front);
            assert(letters.contains(word[word.len() - 1]));
            pairs_complete(shorter, letters, front, word.last());
            let longer = pairs(shorter, letters);
            let k = choose|k: int| 0 <= k < longer.len() && longer[k] == (front, word.last());
            let grown = longer.map_values(|p: (Seq<T>, T)| p.0.push(p.1));
            assert(grown[k] == front.push(word.last()));
            assert(front.push(word.last()) =~= word);
            assert(all[shorter.len() + k] == word);
        }
    }
}

/// Different items of a list are no more than the list has.
pub proof fn distinct_within<T>(s: Seq<T>, all: Seq<T>)
    requires
        s.no_duplicates(),
        forall|i: int| 0 <= i < s.len() ==> all.contains(#[trigger] s[i]),
    ensures
        s.len() <= all.len(),
{
    s.unique_seq_to_set();
    all.lemma_cardinality_of_set();
    assert(s.to_set().subset_of(all.to_set())) by {
        assert forall|x: T| s.to_set().contains(x) implies all.to_set().contains(x) by {
            let i = choose|i: int| 0 <= i < s.len() && s[i] == x;
            assert(all.contains(s[i]));
        }
    }
    lemma_len_subset(s.to_set(), all.to_set());
}

/// The numbers below a bound.
pub open spec fn below(n: nat) -> Seq<usize> {
    Seq::new(n, |i: int| i as usize)
}

/// Every number below the bound is listed.
pub proof fn below_complete(n: nat, x: usize)
    requires
        x < n,
    ensures
        below(n).contains(x),
{
    assert(below(n)[x as int] == x);
}

} // verus!
