//! Suffix trie over domain labels, keyed from the least specific label (the
//! top-level domain) downwards.

use vstd::prelude::*;
use crate::text::{
    chars_of, join_labels, join_with_dot, labels, lemma_labels_concat, same_chars, split_labels,
    string_of, views,
};

verus! {

/// A node of the suffix trie. The root stands for the empty suffix; each
/// edge carries one label.
pub struct TrieNode {
    is_end: bool,
    keys: Vec<Vec<char>>,
    children: Vec<TrieNode>,
}

/// The labels of a domain from the top-level domain inwards: the path a
/// domain takes through the trie.
pub open spec fn label_path(domain: Seq<char>) -> Seq<Seq<char>> {
    labels(domain).reverse()
}

impl TrieNode {
    /// Every node has one child per key and no key twice.
    pub closed spec fn wf(&self) -> bool
        decreases self,
    {
        &&& self.keys.len() == self.children.len()
        &&& forall|i: int, j: int|
            0 <= i < j < self.keys.len() ==> (#[trigger] self.keys[i])@ != (#[trigger] self.keys[j])@
        &&& forall|i: int| 0 <= i < self.children.len() ==> (#[trigger] self.children[i]).wf()
    }

    /// The node reached from here along `path` exists and is marked as the
    /// end of a stored suffix.
    pub closed spec fn holds(&self, path: Seq<Seq<char>>) -> bool
        decreases path.len(),
    {
        if path.len() == 0 {
            self.is_end
        } else {
            exists|i: int|
                0 <= i < self.keys.len() && i < self.children.len() && (#[trigger] self.keys[i])@
                    == path[0] && self.children[i].holds(path.drop_first())
        }
    }

    /// The first `k` labels of `path` are the longest stored suffix on
    /// `path`.
    pub open spec fn longest_on(&self, path: Seq<Seq<char>>, k: int) -> bool {
        &&& 0 <= k <= path.len()
        &&& self.holds(path.subrange(0, k))
        &&& forall|q: Seq<Seq<char>>| #[trigger] self.holds(q) && q.is_prefix_of(path) ==> q.len() <= k
    }

    /// Some prefix of `path` is a stored suffix.
    pub open spec fn covers(&self, path: Seq<Seq<char>>) -> bool {
        exists|p: Seq<Seq<char>>| #[trigger] self.holds(p) && p.is_prefix_of(path)
    }
}

/// A copy of `v`.
fn copy_chars(v: &Vec<char>) -> (out: Vec<char>)
    ensures
        out@ == v@,
{
    let mut out: Vec<char> = Vec::new();
    let mut i: usize = 0;
    while i < v.len()
        invariant
            i <= v.len(),
            out@ == v@.subrange(0, i as int),
        decreases v.len() - i,
    {
        out.push(v[i]);
        assert(v@.subrange(0, i as int).push(v@[i as int]) =~= v@.subrange(0, i + 1));
        i += 1;
    }
    assert(v@.subrange(0, i as int) =~= v@);
    out
}

/// The label path of `domain`, as owned labels.
fn path_of(domain: &str) -> (path: Vec<Vec<char>>)
    ensures
        views(path@) == label_path(domain@),
{
    let chars = chars_of(domain);
    let mut parts = split_labels(&chars);
    let mut path: Vec<Vec<char>> = Vec::new();
    let ghost all = views(parts@);
    while parts.len() > 0
        invariant
            views(parts@).len() <= all.len(),
            views(parts@) == all.subrange(0, parts.len() as int),
            views(path@) == all.subrange(parts.len() as int, all.len() as int).reverse(),
        decreases parts.len(),
    {
        let ghost before = parts@;
        let ghost done = path@;
        let last = parts.pop().unwrap();
        path.push(last);
        proof {
            let n = parts.len() as int;
            assert(views(before)[n] == last@);
            assert(views(parts@) =~= all.subrange(0, n));
            assert(views(path@) =~= views(done).push(last@));
            assert(views(path@) =~= all.subrange(n, all.len() as int).reverse());
        }
    }
    assert(all.subrange(0, all.len() as int) =~= all);
    path
}

impl TrieNode {
    /// An empty trie: it stores no suffix and matches no domain.
    pub fn new() -> (t: Self)
        ensures
            t.wf(),
            t@ == Set::<Seq<Seq<char>>>::empty(),
            forall|p: Seq<Seq<char>>| !t.holds(p),
    {
        let t = TrieNode { is_end: false, keys: Vec::new(), children: Vec::new() };
        assert forall|p: Seq<Seq<char>>| !t.holds(p) by {}
        assert(t@ =~= Set::<Seq<Seq<char>>>::empty());
        t
    }

    /// The child reached by `key`, if there is one.
    fn find_child(&self, key: &Vec<char>) -> (r: Option<usize>)
        requires
            self.wf(),
        ensures
            match r {
                Some(i) => i < self.keys.len() && self.keys[i as int]@ == key@,
                None => forall|i: int| 0 <= i < self.keys.len() ==> (#[trigger] self.keys[i])@ != key@,
            },
    {
        let mut i: usize = 0;
        while i < self.keys.len()
            invariant
                i <= self.keys.len(),
                forall|j: int| 0 <= j < i ==> (#[trigger] self.keys[j])@ != key@,
            decreases self.keys.len() - i,
        {
            if same_chars(&self.keys[i], key) {
                return Some(i);
            }
            i += 1;
        }
        None
    }

    /// What a node holds after one of its children took in a new suffix.
    proof fn lemma_holds_after_descent(
        before: TrieNode,
        after: TrieNode,
        i: int,
        rest: Seq<Seq<char>>,
    )
        requires
            before.wf(),
            0 <= i < before.keys.len(),
            after.keys == before.keys,
            after.is_end == before.is_end,
            after.children@ == before.children@.update(i, after.children@[i]),
            after.children@[i].wf(),
            rest.len() > 0,
            before.keys[i]@ == rest[0],
            forall|q: Seq<Seq<char>>|
                after.children@[i].holds(q) == (before.children@[i].holds(q) || q
                    == rest.drop_first()),
        ensures
            after.wf(),
            forall|p: Seq<Seq<char>>| after.holds(p) == (before.holds(p) || p == rest),
    {
        assert forall|p: Seq<Seq<char>>| after.holds(p) == (before.holds(p) || p == rest) by {
            if p.len() > 0 {
                if before.holds(p) {
                    let j = choose|j: int|
                        0 <= j < before.keys.len() && j < before.children.len() && (
                        #[trigger] before.keys[j])@ == p[0] && before.children[j].holds(
                            p.drop_first(),
                        );
                    assert(after.keys[j]@ == p[0] && after.children[j].holds(p.drop_first()));
                }
                if p == rest {
                    assert(after.keys[i]@ == p[0] && after.children[i].holds(p.drop_first()));
                }
                if after.holds(p) && p != rest {
                    let j = choose|j: int|
                        0 <= j < after.keys.len() && j < after.children.len() && (
                        #[trigger] after.keys[j])@ == p[0] && after.children[j].holds(
                            p.drop_first(),
                        );
                    if j == i && !before.children[j].holds(p.drop_first()) {
                        assert(p =~= seq![p[0]] + p.drop_first());
                        assert(rest =~= seq![rest[0]] + rest.drop_first());
                    }
                    assert(before.keys[j]@ == p[0] && before.children[j].holds(p.drop_first()));
                }
            }
        }
    }

    /// What a node holds after it got a new child for a label it had no
    /// edge for.
    proof fn lemma_holds_after_growth(before: TrieNode, after: TrieNode, rest: Seq<Seq<char>>)
        requires
            before.wf(),
            after.is_end == before.is_end,
            after.keys@.len() == before.keys@.len() + 1,
            after.keys@.drop_last() == before.keys@,
            after.children@.len() == before.children@.len() + 1,
            after.children@.drop_last() == before.children@,
            after.children@.last().wf(),
            rest.len() > 0,
            after.keys@.last()@ == rest[0],
            forall|k: int| 0 <= k < before.keys.len() ==> (#[trigger] before.keys[k])@ != rest[0],
            forall|q: Seq<Seq<char>>| after.children@.last().holds(q) == (q == rest.drop_first()),
        ensures
            after.wf(),
            forall|p: Seq<Seq<char>>| after.holds(p) == (before.holds(p) || p == rest),
    {
        let n = before.keys.len() as int;
        assert forall|k: int| 0 <= k < n implies after.keys[k] == before.keys[k]
            && after.children[k] == before.children[k] by {
            assert(after.keys@.drop_last()[k] == after.keys@[k]);
            assert(after.children@.drop_last()[k] == after.children@[k]);
        }
        assert forall|p: Seq<Seq<char>>| after.holds(p) == (before.holds(p) || p == rest) by {
            if p.len() > 0 {
                if before.holds(p) {
                    let j = choose|j: int|
                        0 <= j < before.keys.len() && j < before.children.len() && (
                        #[trigger] before.keys[j])@ == p[0] && before.children[j].holds(
                            p.drop_first(),
                        );
                    assert(after.keys[j]@ == p[0] && after.children[j].holds(p.drop_first()));
                }
                if p == rest {
                    assert(after.keys[n]@ == p[0] && after.children[n].holds(p.drop_first()));
                }
                if after.holds(p) && p != rest {
                    let j = choose|j: int|
                        0 <= j < after.keys.len() && j < after.children.len() && (
                        #[trigger] after.keys[j])@ == p[0] && after.children[j].holds(
                            p.drop_first(),
                        );
                    if j == n {
                        assert(p =~= seq![p[0]] + p.drop_first());
                        assert(rest =~= seq![rest[0]] + rest.drop_first());
                    }
                    assert(before.keys[j]@ == p[0] && before.children[j].holds(p.drop_first()));
                }
            }
        }
    }

    /// Stores the suffix whose path is `path[from..]` below this node.
    fn insert_path(&mut self, path: &Vec<Vec<char>>, from: usize)
        requires
            old(self).wf(),
            from <= path.len(),
        ensures
            final(self).wf(),
            forall|p: Seq<Seq<char>>|
                final(self).holds(p) == (old(self).holds(p) || p == views(path@).subrange(
                    from as int,
                    path.len() as int,
                )),
        decreases path.len() - from,
    {
        let ghost rest = views(path@).subrange(from as int, path.len() as int);
        let ghost before = *self;
        if from == path.len() {
            self.is_end = true;
            assert forall|p: Seq<Seq<char>>| self.holds(p) == (before.holds(p) || p == rest) by {
                if p.len() == 0 {
                    assert(p =~= rest);
                }
            }
            return ;
        }
        assert(rest.drop_first() =~= views(path@).subrange(from + 1, path.len() as int));
        match self.find_child(&path[from]) {
            Some(i) => {
                self.children[i].insert_path(path, from + 1);
                proof {
                    Self::lemma_holds_after_descent(before, *self, i as int, rest);
                }
            },
            None => {
                let mut child = TrieNode::new();
                child.insert_path(path, from + 1);
                let label = copy_chars(&path[from]);
                self.keys.push(label);
                self.children.push(child);
                proof {
                    assert(self.keys@.drop_last() =~= before.keys@);
                    assert(self.children@.drop_last() =~= before.children@);
                    Self::lemma_holds_after_growth(before, *self, rest);
                }
            },
        }
    }

    /// Whether a stored suffix lies on `path[from..]` below this node.
    fn covers_path(&self, path: &Vec<Vec<char>>, from: usize) -> (r: bool)
        requires
            self.wf(),
            from <= path.len(),
        ensures
            r == self.covers(views(path@).subrange(from as int, path.len() as int)),
        decreases path.len() - from,
    {
        let ghost rest = views(path@).subrange(from as int, path.len() as int);
        if self.is_end {
            let ghost e = Seq::<Seq<char>>::empty();
            assert(self.holds(e) && e.is_prefix_of(rest));
            return true;
        }
        if from == path.len() {
            assert forall|p: Seq<Seq<char>>| !(#[trigger] self.holds(p) && p.is_prefix_of(rest)) by {
                if p.is_prefix_of(rest) {
                    assert(p.len() == 0);
                }
            }
            return false;
        }
        let ghost tail = views(path@).subrange(from + 1, path.len() as int);
        assert(rest.drop_first() =~= tail);
        match self.find_child(&path[from]) {
            Some(i) => {
                let r = self.children[i].covers_path(path, from + 1);
                proof {
                    let child = self.children[i as int];
                    if r {
                        let q = choose|q: Seq<Seq<char>>| #[trigger] child.holds(q) && q.is_prefix_of(tail);
                        let p = seq![rest[0]] + q;
                        assert(p.drop_first() =~= q);
                        assert(self.keys[i as int]@ == p[0]);
                        assert(self.holds(p));
                        assert(p.is_prefix_of(rest)) by {
                            assert(p =~= rest.subrange(0, p.len() as int));
                        }
                    } else {
                        assert forall|p: Seq<Seq<char>>| !(#[trigger] self.holds(p) && p.is_prefix_of(
                            rest,
                        )) by {
                            if self.holds(p) && p.is_prefix_of(rest) {
                                let j = choose|j: int|
                                    0 <= j < self.keys.len() && j < self.children.len() && (
                                    #[trigger] self.keys[j])@ == p[0] && self.children[j].holds(
                                        p.drop_first(),
                                    );
                                assert(p[0] == rest[0]);
                                assert(j == i);
                                assert(p.drop_first().is_prefix_of(tail)) by {
                                    assert(p.drop_first() =~= tail.subrange(0, p.len() - 1));
                                }
                                assert(child.holds(p.drop_first()));
                            }
                        }
                    }
                }
                r
            },
            None => {
                assert forall|p: Seq<Seq<char>>| !(#[trigger] self.holds(p) && p.is_prefix_of(rest)) by {
                    if self.holds(p) && p.is_prefix_of(rest) {
                        assert(p[0] == rest[0]);
                    }
                }
                false
            },
        }
    }

    /// The number of labels of the longest stored suffix on `path[from..]`
    /// below this node.
    fn deepest(&self, path: &Vec<Vec<char>>, from: usize) -> (r: Option<usize>)
        requires
            self.wf(),
            from <= path.len(),
        ensures
            match r {
                Some(k) => from + k <= path.len() && self.longest_on(
                    views(path@).subrange(from as int, path.len() as int),
                    k as int,
                ),
                None => !self.covers(views(path@).subrange(from as int, path.len() as int)),
            },
        decreases path.len() - from,
    {
        let ghost rest = views(path@).subrange(from as int, path.len() as int);
        let below: Option<usize> = if from == path.len() {
            None
        } else {
            match self.find_child(&path[from]) {
                Some(i) => self.children[i].deepest(path, from + 1),
                None => None,
            }
        };
        proof {
            let tail = views(path@).subrange(from + 1, path.len() as int);
            // Every stored suffix on `rest` with a label goes through the
            // child for the first label of `rest`.
            assert forall|q: Seq<Seq<char>>|
                #[trigger] self.holds(q) && q.is_prefix_of(rest) && q.len() > 0 implies from
                < path.len() && exists|i: int|
                0 <= i < self.keys.len() && self.keys[i]@ == rest[0] && self.children[i].holds(
                    q.drop_first(),
                ) && q.drop_first().is_prefix_of(tail) by {
                let j = choose|j: int|
                    0 <= j < self.keys.len() && j < self.children.len() && (#[trigger] self.keys[j])@
                        == q[0] && self.children[j].holds(q.drop_first());
                assert(q[0] == rest[0]);
                assert(rest.drop_first() =~= tail);
                assert(q.drop_first() =~= tail.subrange(0, q.len() - 1));
            }
        }
        match below {
            Some(k) => {
                proof {
                    let i = choose|i: int| 0 <= i < self.keys.len() && self.keys[i]@ == rest[0];
                    let tail = views(path@).subrange(from + 1, path.len() as int);
                    let child = self.children[i];
                    let p = rest.subrange(0, k + 1);
                    assert(p.drop_first() =~= tail.subrange(0, k as int));
                    assert(self.keys[i]@ == p[0]);
                    assert(self.holds(p));
                    assert forall|q: Seq<Seq<char>>|
                        #[trigger] self.holds(q) && q.is_prefix_of(rest) implies q.len() <= k + 1 by {
                        if q.len() > 0 {
                            let j = choose|j: int|
                                0 <= j < self.keys.len() && self.keys[j]@ == rest[0]
                                    && self.children[j].holds(q.drop_first())
                                    && q.drop_first().is_prefix_of(tail);
                            assert(j == i);
                        }
                    }
                }
                Some(k + 1)
            },
            None => {
                proof {
                    assert forall|q: Seq<Seq<char>>|
                        #[trigger] self.holds(q) && q.is_prefix_of(rest) implies q.len() == 0 by {
                        if q.len() > 0 {
                            let j = choose|j: int|
                                0 <= j < self.keys.len() && self.keys[j]@ == rest[0]
                                    && self.children[j].holds(q.drop_first())
                                    && q.drop_first().is_prefix_of(
                                    views(path@).subrange(from + 1, path.len() as int),
                                );
                        }
                    }
                    assert(rest.subrange(0, 0) =~= Seq::<Seq<char>>::empty());
                }
                if self.is_end {
                    Some(0)
                } else {
                    proof {
                        assert forall|q: Seq<Seq<char>>|
                            !(#[trigger] self.holds(q) && q.is_prefix_of(rest)) by {}
                    }
                    None
                }
            },
        }
    }

    /// The longest stored suffix that covers `domain`, if there is one.
    pub fn longest_match(&self, domain: &str) -> (r: Option<String>)
        requires
            self.wf(),
        ensures
            match r {
                Some(s) => exists|k: int|
                    self.longest_on(label_path(domain@), k) && s@ == join_labels(
                        #[trigger] label_path(domain@).subrange(0, k).reverse(),
                    ),
                None => !self.covers(label_path(domain@)),
            },
    {
        let path = path_of(domain);
        let ghost whole = views(path@);
        assert(whole.subrange(0, path.len() as int) =~= whole);
        let k = match self.deepest(&path, 0) {
            Some(k) => k,
            None => {
                return None;
            },
        };
        let ghost forward = whole.subrange(0, k as int).reverse();
        let mut out: Vec<char> = Vec::new();
        let mut taken: usize = 0;
        assert(forward.subrange(0, 0) =~= Seq::<Seq<char>>::empty());
        while taken < k
            invariant
                taken <= k <= path.len(),
                whole == views(path@),
                forward == whole.subrange(0, k as int).reverse(),
                out@ == join_labels(forward.subrange(0, taken as int)),
            decreases k - taken,
        {
            let label = &path[k - 1 - taken];
            proof {
                let next = forward.subrange(0, taken + 1);
                assert(next.drop_last() =~= forward.subrange(0, taken as int));
                assert(next.last() == label@);
            }
            if taken == 0 {
                out = copy_chars(label);
            } else {
                out = join_with_dot(&out, label);
            }
            taken += 1;
        }
        assert(forward.subrange(0, k as int) =~= forward);
        Some(string_of(&out))
    }

    /// Stores `domain` as a suffix: from now on the trie matches `domain`
    /// and every domain that ends with its labels.
    pub fn insert(&mut self, domain: &str)
        requires
            old(self).wf(),
        ensures
            final(self).wf(),
            final(self)@ == old(self)@.insert(label_path(domain@)),
    {
        let path = path_of(domain);
        self.insert_path(&path, 0);
        assert(views(path@).subrange(0, path.len() as int) =~= views(path@));
        assert(final(self)@ =~= old(self)@.insert(label_path(domain@)));
    }

    /// Whether some stored suffix covers `domain`: its labels are the last
    /// labels of `domain`.
    pub fn matches(&self, domain: &str) -> (r: bool)
        requires
            self.wf(),
        ensures
            r == self.covers(label_path(domain@)),
    {
        let path = path_of(domain);
        assert(views(path@).subrange(0, path.len() as int) =~= views(path@));
        self.covers_path(&path, 0)
    }
}

/// A trie that stores a suffix covers every domain whose last labels are
/// the labels of that suffix.
pub proof fn lemma_stored_suffix_covers(t: TrieNode, suffix: Seq<char>, domain: Seq<char>)
    requires
        t@.contains(label_path(suffix)),
        labels(suffix).is_suffix_of(labels(domain)),
    ensures
        t.covers(label_path(domain)),
{
    let p = label_path(suffix);
    let path = label_path(domain);
    assert(t.holds(p));
    assert(p =~= path.subrange(0, p.len() as int));
}

/// A trie that stores a suffix covers the suffix itself and each of its
/// subdomains.
pub proof fn lemma_stored_suffix_covers_subdomains(t: TrieNode, suffix: Seq<char>, sub: Seq<char>)
    requires
        t@.contains(label_path(suffix)),
    ensures
        t.covers(label_path(suffix)),
        t.covers(label_path(sub + seq!['.'] + suffix)),
{
    let whole = sub + seq!['.'] + suffix;
    lemma_labels_concat(sub, suffix);
    let tail = labels(suffix);
    let all = labels(whole);
    assert(tail =~= all.subrange(all.len() - tail.len(), all.len() as int));
    lemma_stored_suffix_covers(t, suffix, whole);
    assert(tail =~= tail.subrange(0, tail.len() as int));
    lemma_stored_suffix_covers(t, suffix, suffix);
}

/// A trie covers a domain only by a suffix that it stores: a trie that
/// stores nothing but `suffix` covers no domain whose last labels are not
/// the labels of `suffix`.
pub proof fn lemma_only_stored_suffixes_cover(t: TrieNode, suffix: Seq<char>, domain: Seq<char>)
    requires
        t@ == set![label_path(suffix)],
        t.covers(label_path(domain)),
    ensures
        labels(suffix).is_suffix_of(labels(domain)),
{
    let path = label_path(domain);
    let p = choose|p: Seq<Seq<char>>| #[trigger] t.holds(p) && p.is_prefix_of(path);
    assert(t@.contains(p));
    assert(p == label_path(suffix));
    let tail = labels(suffix);
    let all = labels(domain);
    assert forall|i: int| 0 <= i < tail.len() implies tail[i] == all[all.len() - tail.len() + i] by {
        let k = tail.len() - 1 - i;
        assert(p[k] == path[k]);
    }
    assert(tail =~= all.subrange(all.len() - tail.len(), all.len() as int));
}

impl View for TrieNode {
    type V = Set<Seq<Seq<char>>>;

    /// The stored suffixes, each as its label path.
    open spec fn view(&self) -> Set<Seq<Seq<char>>> {
        Set::new(|p: Seq<Seq<char>>| self.holds(p))
    }
}

} // verus!
