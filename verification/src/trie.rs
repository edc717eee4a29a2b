//! Prefix trie over a 26-letter alphabet, one trie per word length.
//!
//! All words stored in one trie have the same length, so a complete word is
//! exactly a root-to-leaf path: a node with no children marks a word end and
//! no separate terminal flag is needed.

use vstd::prelude::*;

verus! {

/// One trie node. `children[i]` is the subtree of words whose next letter is
/// `i`; `has_children` is true iff some child slot is occupied (a fast
/// short-circuit for exhausted branches).
pub struct TrieNode {
    pub has_children: bool,
    pub children: Vec<Option<Box<TrieNode>>>,
}

impl TrieNode {
    /// Shape of a single node: 26 child slots, and the `has_children` flag
    /// agrees with the slots.
    pub open spec fn node_wf(self) -> bool {
        &&& self.children@.len() == 26
        &&& (self.has_children <==> exists|i: int| 0 <= i < 26 && self.children@[i].is_some())
    }

    /// The whole subtree is well shaped.
    pub open spec fn wf(self) -> bool
        decreases self,
    {
        &&& self.node_wf()
        &&& forall|i: int|
            0 <= i < 26 && self.children@[i].is_some() ==> (#[trigger] self.children@[i])->0.wf()
    }

    /// Number of leaves (equivalently, of complete words) below this node.
    pub open spec fn leaf_count(self) -> nat
        decreases self, 27int,
    {
        if !self.has_children {
            1
        } else {
            Self::leaf_count_upto(self, 26)
        }
    }

    /// Leaves reachable through the child slots `0 .. n`.
    pub open spec fn leaf_count_upto(self, n: int) -> nat
        decreases self, n,
    {
        if n <= 0 {
            0
        } else if 0 <= n - 1 < self.children@.len() {
            proof {
                broadcast use vstd::std_specs::vec::group_vec_axioms;

                assert(decreases_to!(self => self.children));
                assert(decreases_to!(self.children => self.children@));
                assert(decreases_to!(self.children@ => self.children@[n - 1]));
            }
            Self::leaf_count_upto(self, n - 1) + match self.children@[n - 1] {
                Some(c) => c.leaf_count(),
                None => 0,
            }
        } else {
            Self::leaf_count_upto(self, n - 1)
        }
    }

    /// Number of complete words reachable from this node; a leaf counts 1.
    /// Used only as a scheduling weight, never for correctness.
    pub fn leaf_nodes(&self) -> (r: usize)
        requires
            self.wf(),
            self.leaf_count() <= usize::MAX,
        ensures
            r == self.leaf_count(),
        decreases *self,
    {
        if !self.has_children {
            return 1;
        }
        let mut total: usize = 0;
        let mut i: usize = 0;
        while i < 26
            invariant
                0 <= i <= 26,
                self.wf(),
                self.leaf_count() <= usize::MAX,
                self.has_children,
                total == Self::leaf_count_upto(*self, i as int),
                total <= self.leaf_count(),
            decreases 26 - i,
        {
            proof {
                lemma_leaf_count_upto_le(*self, i + 1 as int, 26);
            }
            match &self.children[i] {
                Some(c) => {
                    let n = c.leaf_nodes();
                    total = total + n;
                }
                None => {}
            }
            i = i + 1;
        }
        total
    }
}

/// The partial sums of `leaf_count_upto` are monotone in the index.
proof fn lemma_leaf_count_upto_le(t: TrieNode, n: int, m: int)
    requires
        n <= m,
    ensures
        TrieNode::leaf_count_upto(t, n) <= TrieNode::leaf_count_upto(t, m),
    decreases m - n,
{
    if n < m {
        lemma_leaf_count_upto_le(t, n, m - 1);
    }
}

/// The views of a sequence of letter vectors.
pub open spec fn word_views(ws: Seq<Vec<u8>>) -> Seq<Seq<u8>> {
    ws.map_values(|w: Vec<u8>| w@)
}

/// The common length of a uniform word list (0 for an empty list).
pub open spec fn spec_word_len(ws: Seq<Seq<u8>>) -> nat {
    if ws.len() == 0 {
        0
    } else {
        ws[0].len()
    }
}

/// All words have the same length and every letter is below 26.
pub open spec fn uniform_words(ws: Seq<Seq<u8>>) -> bool {
    &&& forall|i: int| 0 <= i < ws.len() ==> (#[trigger] ws[i]).len() == spec_word_len(ws)
    &&& forall|i: int, k: int|
        0 <= i < ws.len() && 0 <= k < ws[i].len() ==> ws[i][k] < 26
}

/// The suffixes (first letter removed, order kept) of the words that begin
/// with `letter`.
pub open spec fn group_of(ws: Seq<Seq<u8>>, letter: int) -> Seq<Seq<u8>>
    decreases ws.len(),
{
    if ws.len() == 0 {
        Seq::empty()
    } else {
        let rest = group_of(ws.drop_last(), letter);
        if ws.last().len() > 0 && ws.last()[0] == letter {
            rest.push(ws.last().skip(1))
        } else {
            rest
        }
    }
}

/// `t` is exactly the trie of the word list `ws`, all of whose words have
/// length `len`: child `i` exists iff some word begins with letter `i`, and
/// is then the trie of those words' suffixes.
pub open spec fn is_trie_of(t: TrieNode, ws: Seq<Seq<u8>>, len: nat) -> bool
    decreases len,
{
    &&& t.children@.len() == 26
    &&& if ws.len() == 0 || len == 0 {
        &&& !t.has_children
        &&& forall|i: int| 0 <= i < 26 ==> (#[trigger] t.children@[i]).is_none()
    } else {
        &&& t.has_children
        &&& forall|i: int|
            0 <= i < 26 ==> ((#[trigger] t.children@[i]).is_some() <==> group_of(ws, i).len()
                > 0)
        &&& forall|i: int|
            0 <= i < 26 && (#[trigger] t.children@[i]).is_some() ==> is_trie_of(
                *t.children@[i]->0,
                group_of(ws, i),
                (len - 1) as nat,
            )
    }
}

/// A sequence is in a letter group exactly when some word of the list
/// begins with that letter and continues with the sequence.
proof fn lemma_group_membership(ws: Seq<Seq<u8>>, letter: int, s: Seq<u8>)
    ensures
        group_of(ws, letter).contains(s) <==> exists|i: int|
            0 <= i < ws.len() && (#[trigger] ws[i]).len() > 0 && ws[i][0] == letter
                && ws[i].skip(1) == s,
    decreases ws.len(),
{
    if ws.len() > 0 {
        lemma_group_membership(ws.drop_last(), letter, s);
        let rest = group_of(ws.drop_last(), letter);
        let g = group_of(ws, letter);
        let last = ws.last();
        assert(forall|i: int| 0 <= i < ws.len() - 1 ==> #[trigger] ws.drop_last()[i] == ws[i]);
        if last.len() > 0 && last[0] == letter {
            assert(g == rest.push(last.skip(1)));
            if g.contains(s) {
                let k = choose|k: int| 0 <= k < g.len() && g[k] == s;
                if k < rest.len() {
                    assert(rest[k] == s);
                    assert(rest.contains(s));
                } else {
                    assert(s == last.skip(1));
                    assert(ws[ws.len() - 1].len() > 0 && ws[ws.len() - 1][0] == letter && ws[ws.len()
                        - 1].skip(1) == s);
                }
            }
            if exists|i: int|
                0 <= i < ws.len() && (#[trigger] ws[i]).len() > 0 && ws[i][0] == letter
                    && ws[i].skip(1) == s {
                let i = choose|i: int|
                    0 <= i < ws.len() && (#[trigger] ws[i]).len() > 0 && ws[i][0] == letter
                        && ws[i].skip(1) == s;
                if i < ws.len() - 1 {
                    assert(ws.drop_last()[i] == ws[i]);
                    assert(rest.contains(s));
                    let k = choose|k: int| 0 <= k < rest.len() && rest[k] == s;
                    assert(g[k] == s);
                    assert(g.contains(s));
                } else {
                    assert(g[g.len() - 1] == s);
                    assert(g.contains(s));
                }
            }
        } else {
            assert(g == rest);
            if exists|i: int|
                0 <= i < ws.len() && (#[trigger] ws[i]).len() > 0 && ws[i][0] == letter
                    && ws[i].skip(1) == s {
                let i = choose|i: int|
                    0 <= i < ws.len() && (#[trigger] ws[i]).len() > 0 && ws[i][0] == letter
                        && ws[i].skip(1) == s;
                assert(i < ws.len() - 1);
                assert(ws.drop_last()[i] == ws[i]);
            }
        }
    }
}

/// The dictionary law of the trie: walking any letter sequence through the
/// trie of a (nonempty, uniform) word list ends at a leaf exactly when the
/// sequence is one of the list's words.
pub proof fn lemma_trie_of_contains(t: TrieNode, ws: Seq<Seq<u8>>, len: nat, w: Seq<u8>)
    requires
        uniform_words(ws),
        ws.len() > 0,
        spec_word_len(ws) == len,
        is_trie_of(t, ws, len),
    ensures
        t.contains_word(w) <==> ws.contains(w),
    decreases len,
{
    if len == 0 {
        if w.len() == 0 {
            assert(ws[0].len() == 0);
            assert(ws[0] =~= w);
            assert(ws.contains(w));
        } else {
            if ws.contains(w) {
                let i = choose|i: int| 0 <= i < ws.len() && ws[i] == w;
                assert(ws[i].len() == 0);
                assert(false);
            }
        }
    } else if w.len() == 0 {
        assert(!t.contains_word(w));
        if ws.contains(w) {
            let i = choose|i: int| 0 <= i < ws.len() && ws[i] == w;
            assert(ws[i].len() == len);
            assert(false);
        }
    } else if w[0] >= 26 {
        assert(!t.contains_word(w));
        if ws.contains(w) {
            let i = choose|i: int| 0 <= i < ws.len() && ws[i] == w;
            assert(ws[i][0] < 26);
            assert(false);
        }
    } else {
        let c = w[0] as int;
        let g = group_of(ws, c);
        lemma_group_uniform(ws, c);
        lemma_group_membership(ws, c, w.skip(1));
        if t.children@[c].is_some() {
            let child = *t.children@[c]->0;
            assert(g.len() > 0);
            assert(g[0].len() == len - 1);
            assert(spec_word_len(g) == (len - 1) as nat);
            lemma_trie_of_contains(child, g, (len - 1) as nat, w.skip(1));
            assert(t.contains_word(w) == child.contains_word(w.skip(1)));
            if g.contains(w.skip(1)) {
                let i = choose|i: int|
                    0 <= i < ws.len() && (#[trigger] ws[i]).len() > 0 && ws[i][0] == c
                        && ws[i].skip(1) == w.skip(1);
                assert(ws[i].len() == 1 + ws[i].skip(1).len());
                assert(w.len() == 1 + w.skip(1).len());
                assert forall|m: int| 0 <= m < w.len() implies ws[i][m] == w[m] by {
                    if m > 0 {
                        assert(ws[i].skip(1)[m - 1] == ws[i][m]);
                        assert(w.skip(1)[m - 1] == w[m]);
                    }
                }
                assert(ws[i] =~= w);
                assert(ws.contains(w));
            }
            if ws.contains(w) {
                let i = choose|i: int| 0 <= i < ws.len() && ws[i] == w;
                assert(ws[i].len() > 0 && ws[i][0] == c && ws[i].skip(1) == w.skip(1));
                assert(g.contains(w.skip(1)));
            }
        } else {
            assert(!t.contains_word(w));
            assert(g.len() == 0);
            if ws.contains(w) {
                let i = choose|i: int| 0 <= i < ws.len() && ws[i] == w;
                assert(ws[i].len() > 0 && ws[i][0] == c && ws[i].skip(1) == w.skip(1));
                assert(g.contains(w.skip(1)));
                assert(false);
            }
        }
    }
}

/// A nonempty uniform list of nonempty words puts its first word in the
/// group of that word's first letter.
proof fn lemma_group_first_nonempty(ws: Seq<Seq<u8>>)
    requires
        uniform_words(ws),
        ws.len() > 0,
        spec_word_len(ws) > 0,
    ensures
        group_of(ws, ws[0][0] as int).len() > 0,
    decreases ws.len(),
{
    if ws.len() == 1 {
        assert(group_of(ws.drop_last(), ws[0][0] as int).len() == 0);
    } else {
        assert(uniform_words(ws.drop_last())) by {
            assert(forall|i: int|
                0 <= i < ws.drop_last().len() ==> #[trigger] ws.drop_last()[i] == ws[i]);
        }
        lemma_group_first_nonempty(ws.drop_last());
    }
}

/// Every word of a letter group of a uniform list has length one less, with
/// valid letters.
proof fn lemma_group_uniform(ws: Seq<Seq<u8>>, letter: int)
    requires
        uniform_words(ws),
    ensures
        forall|k: int|
            0 <= k < group_of(ws, letter).len() ==> (#[trigger] group_of(ws, letter)[k]).len()
                == spec_word_len(ws) - 1,
        forall|k: int, m: int|
            0 <= k < group_of(ws, letter).len() && 0 <= m < group_of(ws, letter)[k].len()
                ==> group_of(ws, letter)[k][m] < 26,
        uniform_words(group_of(ws, letter)),
    decreases ws.len(),
{
    if ws.len() > 0 {
        assert(uniform_words(ws.drop_last())) by {
            assert(forall|i: int|
                0 <= i < ws.drop_last().len() ==> #[trigger] ws.drop_last()[i] == ws[i]);
        }
        if ws.drop_last().len() > 0 {
            assert(spec_word_len(ws.drop_last()) == spec_word_len(ws));
        }
        lemma_group_uniform(ws.drop_last(), letter);
        let g = group_of(ws, letter);
        let rest = group_of(ws.drop_last(), letter);
        if ws.last().len() > 0 && ws.last()[0] == letter {
            assert(ws.last().len() == spec_word_len(ws));
            assert(forall|m: int|
                0 <= m < ws.last().skip(1).len() ==> #[trigger] ws.last().skip(1)[m]
                    == ws.last()[m + 1]);
            assert(forall|k: int| 0 <= k < rest.len() ==> g[k] == rest[k]);
        }
    }
}

impl TrieNode {
    /// Builds the trie of `words`, grouping the words by first letter and
    /// recursing on each group's suffixes; grouping is redone in full at
    /// every level, so no input order is assumed.
    pub fn from_words(words: &Vec<Vec<u8>>) -> (r: Self)
        requires
            uniform_words(word_views(words@)),
        ensures
            r.wf(),
            is_trie_of(r, word_views(words@), spec_word_len(word_views(words@))),
        decreases spec_word_len(word_views(words@)),
    {
        let ghost ws = word_views(words@);
        let mut children: Vec<Option<Box<TrieNode>>> = Vec::new();
        let mut i: usize = 0;
        while i < 26
            invariant
                children@.len() == i,
                0 <= i <= 26,
                forall|k: int| 0 <= k < i ==> (#[trigger] children@[k]).is_none(),
            decreases 26 - i,
        {
            children.push(None);
            i = i + 1;
        }
        if words.len() == 0 || words[0].len() == 0 {
            return TrieNode { has_children: false, children };
        }
        let ghost len = spec_word_len(ws);
        let mut b: u8 = 0;
        while b < 26
            invariant
                uniform_words(ws),
                ws == word_views(words@),
                len == spec_word_len(ws),
                words@.len() > 0,
                ws.len() == words@.len(),
                len > 0,
                children@.len() == 26,
                0 <= b <= 26,
                forall|k: int| b <= k < 26 ==> (#[trigger] children@[k]).is_none(),
                forall|k: int|
                    0 <= k < b ==> ((#[trigger] children@[k]).is_some() <==> group_of(ws, k).len()
                        > 0),
                forall|k: int|
                    0 <= k < b && (#[trigger] children@[k]).is_some() ==> is_trie_of(
                        *children@[k]->0,
                        group_of(ws, k),
                        (len - 1) as nat,
                    ),
                forall|k: int|
                    0 <= k < b && (#[trigger] children@[k]).is_some() ==> (children@[k]->0).wf(),
            decreases 26 - b,
        {
            let bucket = Self::suffixes_of(words, b);
            proof {
                lemma_group_uniform(ws, b as int);
            }
            if bucket.len() > 0 {
                let child = Self::from_words(&bucket);
                children[b as usize] = Some(Box::new(child));
            }
            b = b + 1;
        }
        proof {
            lemma_group_first_nonempty(ws);
            assert(ws[0] == words@[0]@);
            assert(ws[0][0] < 26);
            assert(children@[ws[0][0] as int].is_some());
        }
        let r = TrieNode { has_children: true, children };
        proof {
            assert(r.node_wf());
        }
        r
    }

    /// Collects the suffixes of the words beginning with `letter`, in order.
    fn suffixes_of(words: &Vec<Vec<u8>>, letter: u8) -> (r: Vec<Vec<u8>>)
        ensures
            word_views(r@) == group_of(word_views(words@), letter as int),
    {
        let ghost ws = word_views(words@);
        let mut r: Vec<Vec<u8>> = Vec::new();
        let mut j: usize = 0;
        while j < words.len()
            invariant
                ws == word_views(words@),
                ws.len() == words@.len(),
                0 <= j <= words@.len(),
                word_views(r@) == group_of(ws.take(j as int), letter as int),
            decreases words@.len() - j,
        {
            proof {
                assert(ws.take(j + 1).drop_last() =~= ws.take(j as int));
                assert(ws.take(j + 1).last() == ws[j as int]);
                assert(ws[j as int] == words@[j as int]@);
            }
            let w = &words[j];
            if w.len() > 0 && w[0] == letter {
                let mut suffix: Vec<u8> = Vec::new();
                let mut k: usize = 1;
                while k < w.len()
                    invariant
                        1 <= k <= w@.len(),
                        suffix@.len() == k - 1,
                        forall|m: int| 0 <= m < k - 1 ==> suffix@[m] == w@[m + 1],
                    decreases w@.len() - k,
                {
                    suffix.push(w[k]);
                    k = k + 1;
                }
                assert(suffix@ =~= w@.skip(1));
                r.push(suffix);
                assert(word_views(r@) =~= group_of(ws.take(j + 1), letter as int));
            } else {
                assert(word_views(r@) =~= group_of(ws.take(j + 1), letter as int));
            }
            j = j + 1;
        }
        proof {
            assert(ws.take(words@.len() as int) =~= ws);
        }
        r
    }

    /// Whether `w` is one of the words this trie was built from: the path of
    /// its letters exists and ends at a leaf.
    pub open spec fn contains_word(self, w: Seq<u8>) -> bool
        decreases w.len(),
    {
        if w.len() == 0 {
            !self.has_children
        } else {
            &&& w[0] < 26
            &&& self.children@.len() == 26
            &&& self.children@[w[0] as int].is_some()
            &&& (self.children@[w[0] as int]->0).contains_word(w.skip(1))
        }
    }

    /// Walks the trie along the letters of `w`.
    pub fn contains(&self, w: &Vec<u8>) -> (r: bool)
        requires
            self.wf(),
        ensures
            r == self.contains_word(w@),
    {
        let mut cur: &TrieNode = self;
        let mut k: usize = 0;
        proof {
            assert(w@.skip(0) =~= w@);
        }
        while k < w.len()
            invariant
                0 <= k <= w@.len(),
                cur.wf(),
                self.contains_word(w@) == cur.contains_word(w@.skip(k as int)),
            decreases w@.len() - k,
        {
            proof {
                assert(w@.skip(k as int).len() > 0);
                assert(w@.skip(k as int)[0] == w@[k as int]);
                assert(w@.skip(k as int).skip(1) =~= w@.skip(k + 1));
            }
            if w[k] >= 26 {
                return false;
            }
            match &cur.children[w[k] as usize] {
                Some(c) => {
                    cur = c;
                }
                None => {
                    return false;
                }
            }
            k = k + 1;
        }
        proof {
            assert(w@.skip(w@.len() as int) =~= Seq::<u8>::empty());
        }
        !cur.has_children
    }
}

} // verus!
