use std::collections::HashSet;
use vstd::prelude::*;

use crate::parse_tree::{Class, Program};
use crate::semantic_analysis::builtins::{builtin_classes, builtin_hierarchy, OBJECT_ID};
use crate::semantic_analysis::{plain_error, SemanticError, SemanticErrorKind};

verus! {

broadcast use vstd::std_specs::hash::group_hash_axioms;

/// The class hierarchy: each known class with its parent (`None` for the
/// root, `Object`).
#[derive(Debug)]
pub struct InheritanceTree {
    inner: Vec<(usize, Option<usize>)>,
}

/// The classes of a list of (class, parent) entries, in order.
pub open spec fn entry_keys(s: Seq<(usize, Option<usize>)>) -> Seq<usize> {
    s.map_values(|e: (usize, Option<usize>)| e.0)
}

/// The map from class to parent that a list of entries describes.
pub open spec fn entries_map(s: Seq<(usize, Option<usize>)>) -> Map<usize, Option<usize>>
    decreases s.len(),
{
    if s.len() == 0 {
        Map::empty()
    } else {
        entries_map(s.drop_last()).insert(s.last().0, s.last().1)
    }
}

/// The parent of `c`, `None` for a root or for a class the map does not know.
pub open spec fn parent_of(m: Map<usize, Option<usize>>, c: usize) -> Option<usize> {
    if m.contains_key(c) {
        m[c]
    } else {
        None
    }
}

/// The class `n` steps up from `c`, if the chain of parents is that long.
pub open spec fn ancestor_at(m: Map<usize, Option<usize>>, c: usize, n: nat) -> Option<usize>
    decreases n,
{
    if n == 0 {
        Some(c)
    } else {
        match ancestor_at(m, c, (n - 1) as nat) {
            Some(x) => parent_of(m, x),
            None => None,
        }
    }
}

/// No class is its own ancestor.
pub open spec fn acyclic(m: Map<usize, Option<usize>>) -> bool {
    forall|c: usize, n: nat| n >= 1 ==> #[trigger] ancestor_at(m, c, n) != Some(c)
}

/// `a` lies on the chain of parents above `d`, `d` itself excluded.
pub open spec fn is_ancestor_of(m: Map<usize, Option<usize>>, a: usize, d: usize) -> bool {
    exists|n: nat| n >= 1 && #[trigger] ancestor_at(m, d, n) == Some(a)
}

/// `s` is `t` or a descendant of `t`.
pub open spec fn is_subtype_of(m: Map<usize, Option<usize>>, s: usize, t: usize) -> bool {
    s == t || is_ancestor_of(m, t, s)
}

/// The chains of parents above `a` and above `b` (both included) meet.
pub open spec fn common_ancestor_exists(m: Map<usize, Option<usize>>, a: usize, b: usize) -> bool {
    exists|i: nat, j: nat|
        #[trigger] ancestor_at(m, a, i) is Some && ancestor_at(m, a, i) == #[trigger] ancestor_at(m, b, j)
}

/// `r` is the first class on the chain from `b` upwards that `a` is a
/// subtype of: the least upper bound of `a` and `b`.
pub open spec fn is_lub(m: Map<usize, Option<usize>>, a: usize, b: usize, r: usize) -> bool {
    exists|k: nat|
        {
            &&& #[trigger] ancestor_at(m, b, k) == Some(r)
            &&& is_subtype_of(m, a, r)
            &&& forall|j: nat|
                j < k ==> match #[trigger] ancestor_at(m, b, j) {
                    Some(y) => !is_subtype_of(m, a, y),
                    None => true,
                }
        }
}

// ---------------------------------------------------------------------------
// Facts about chains of parents

pub proof fn lemma_ancestor_add(m: Map<usize, Option<usize>>, c: usize, a: nat, b: nat)
    ensures
        ancestor_at(m, c, a + b) == match ancestor_at(m, c, a) {
            Some(x) => ancestor_at(m, x, b),
            None => None,
        },
    decreases b,
{
    if b > 0 {
        lemma_ancestor_add(m, c, a, (b - 1) as nat);
        assert((a + b - 1) as nat == a + (b - 1) as nat);
        match ancestor_at(m, c, a) {
            Some(x) => {},
            None => {},
        }
    }
}

pub proof fn lemma_ancestor_none_stays(m: Map<usize, Option<usize>>, c: usize, a: nat, b: nat)
    requires
        a <= b,
        ancestor_at(m, c, a) is None,
    ensures
        ancestor_at(m, c, b) is None,
{
    lemma_ancestor_add(m, c, a, (b - a) as nat);
    assert(a + (b - a) as nat == b);
}

proof fn lemma_ancestor_step_in_dom(m: Map<usize, Option<usize>>, c: usize, n: nat)
    requires
        ancestor_at(m, c, n + 1) is Some,
    ensures
        ancestor_at(m, c, n) is Some,
        m.contains_key(ancestor_at(m, c, n).unwrap()),
{
    assert(ancestor_at(m, c, (n + 1) as nat) == match ancestor_at(m, c, n) {
        Some(x) => parent_of(m, x),
        None => None,
    });
}

/// Distinct classes that the map knows are no more than it has keys.
proof fn lemma_distinct_bounded(s: Seq<usize>, dom: Set<usize>)
    requires
        dom.finite(),
        s.no_duplicates(),
        forall|i: int| 0 <= i < s.len() ==> dom.contains(#[trigger] s[i]),
    ensures
        s.len() <= dom.len(),
{
    s.unique_seq_to_set();
    assert(s.to_set().subset_of(dom));
    vstd::set_lib::lemma_len_subset(s.to_set(), dom);
}

/// A class that lies on a cycle has an unending chain of parents.
proof fn lemma_cycle_never_ends(m: Map<usize, Option<usize>>, c: usize, n: nat, t: nat)
    requires
        n >= 1,
        ancestor_at(m, c, n) == Some(c),
    ensures
        ancestor_at(m, c, t) is Some,
    decreases t,
{
    if t >= n {
        lemma_cycle_never_ends(m, c, n, (t - n) as nat);
        lemma_ancestor_add(m, c, n, (t - n) as nat);
        assert(n + (t - n) as nat == t);
    } else if ancestor_at(m, c, t) is None {
        lemma_ancestor_none_stays(m, c, t, n);
    }
}

/// Without cycles, every chain of parents ends within as many steps as
/// there are classes.
pub proof fn lemma_chain_ends(m: Map<usize, Option<usize>>, d: usize)
    requires
        acyclic(m),
        m.dom().finite(),
    ensures
        ancestor_at(m, d, m.dom().len() + 1) is None,
{
    let n = m.dom().len();
    if ancestor_at(m, d, n + 1) is Some {
        assert forall|i: nat| i <= n + 1 implies #[trigger] ancestor_at(m, d, i) is Some by {
            if ancestor_at(m, d, i) is None {
                lemma_ancestor_none_stays(m, d, i, n + 1);
            }
        }
        let s = Seq::new(n + 1, |i: int| ancestor_at(m, d, i as nat).unwrap());
        assert forall|i: int| 0 <= i < s.len() implies m.dom().contains(#[trigger] s[i]) by {
            lemma_ancestor_step_in_dom(m, d, i as nat);
        }
        assert forall|i: int, j: int| 0 <= i < s.len() && 0 <= j < s.len() && i != j implies s[i]
            != s[j] by {
            if s[i] == s[j] {
                let (lo, hi) = if i < j {
                    (i, j)
                } else {
                    (j, i)
                };
                lemma_ancestor_add(m, d, lo as nat, (hi - lo) as nat);
                assert(lo as nat + (hi - lo) as nat == hi as nat);
                assert(ancestor_at(m, s[lo], (hi - lo) as nat) == Some(s[lo]));
            }
        }
        lemma_distinct_bounded(s, m.dom());
    }
}

/// The chain from `d` ends: some step has no class.
proof fn lemma_chain_has_end(m: Map<usize, Option<usize>>, d: usize) -> (t: nat)
    requires
        acyclic(m),
        m.dom().finite(),
    ensures
        ancestor_at(m, d, t) is None,
{
    lemma_chain_ends(m, d);
    m.dom().len() + 1
}

proof fn lemma_entries_map_dom(s: Seq<(usize, Option<usize>)>)
    ensures
        entries_map(s).dom() == entry_keys(s).to_set(),
        entries_map(s).dom().finite(),
        forall|i: int|
            0 <= i < s.len() && entry_keys(s).no_duplicates() ==> #[trigger] entries_map(s)[s[i].0]
                == s[i].1,
    decreases s.len(),
{
    if s.len() > 0 {
        lemma_entries_map_dom(s.drop_last());
        assert(entry_keys(s.drop_last()) =~= entry_keys(s).drop_last());
        assert(entry_keys(s).to_set() =~= entry_keys(s.drop_last()).to_set().insert(s.last().0))
            by {
            let ks = entry_keys(s);
            let kd = entry_keys(s.drop_last());
            assert(ks =~= kd.push(s.last().0));
            assert forall|x: usize| ks.contains(x) implies #[trigger] kd.to_set().insert(s.last().0).contains(x) by {
                let j = choose|j: int| 0 <= j < ks.len() && ks[j] == x;
                if j < ks.len() - 1 {
                    assert(kd[j] == x);
                }
            }
            assert forall|x: usize| #[trigger] kd.to_set().insert(s.last().0).contains(x) implies ks.contains(x) by {
                if x == s.last().0 {
                    assert(ks[ks.len() - 1] == x);
                } else {
                    let j = choose|j: int| 0 <= j < kd.len() && kd[j] == x;
                    assert(ks[j] == x);
                }
            }
        }
        assert forall|i: int|
            0 <= i < s.len() && entry_keys(s).no_duplicates() implies #[trigger] entries_map(
            s,
        )[s[i].0] == s[i].1 by {
            if i < s.len() - 1 {
                assert(entry_keys(s)[i] != entry_keys(s)[s.len() - 1]);
                assert(entry_keys(s.drop_last()).no_duplicates());
                assert(s.drop_last()[i] == s[i]);
            }
        }
    } else {
        assert(entry_keys(s).to_set() =~= Set::empty());
    }
}

// ---------------------------------------------------------------------------
// What `build` computes

/// The error for a class that is declared twice.
pub open spec fn duplicate_error(name: usize) -> SemanticError {
    plain_error(SemanticErrorKind::DuplicateClass { name })
}

/// The entries and the duplicate-class errors after reading the classes
/// of a program in order: a class whose name is taken is reported, any
/// other class enters with its parent, `Object` when it names none.
pub open spec fn scan_classes(classes: Seq<Class>) -> (Seq<(usize, Option<usize>)>, Seq<SemanticError>)
    decreases classes.len(),
{
    if classes.len() == 0 {
        (builtin_hierarchy(), Seq::empty())
    } else {
        let (es, errs) = scan_classes(classes.drop_last());
        match classes.last() {
            Class::Valid { name, parent, .. } => {
                if entry_keys(es).contains(name) {
                    (es, errs.push(duplicate_error(name)))
                } else {
                    (
                        es.push(
                            (
                                name,
                                Some(
                                    match parent {
                                        Some(p) => p,
                                        None => OBJECT_ID,
                                    },
                                ),
                            ),
                        ),
                        errs,
                    )
                }
            },
            Class::Invalid => (es, errs),
        }
    }
}

/// One error for each entry whose parent is a class that `m` does not know.
pub open spec fn undefined_parent_errors(
    es: Seq<(usize, Option<usize>)>,
    m: Map<usize, Option<usize>>,
) -> Seq<SemanticError>
    decreases es.len(),
{
    if es.len() == 0 {
        Seq::empty()
    } else {
        let rest = undefined_parent_errors(es.drop_last(), m);
        match es.last().1 {
            Some(p) => if m.contains_key(p) {
                rest
            } else {
                rest.push(plain_error(SemanticErrorKind::UndefinedClass { name: p }))
            },
            None => rest,
        }
    }
}

/// All the errors that `build` reports for `classes`, in order.
pub open spec fn hierarchy_errors(classes: Seq<Class>) -> Seq<SemanticError> {
    let (es, dups) = scan_classes(classes);
    let m = entries_map(es);
    let undefined = undefined_parent_errors(es, m);
    let cycle = if acyclic(m) {
        Seq::empty()
    } else {
        seq![plain_error(SemanticErrorKind::InheritanceCycle)]
    };
    dups + undefined + cycle
}

/// The hierarchy that `build` makes of `classes`.
pub open spec fn hierarchy_of(classes: Seq<Class>) -> Map<usize, Option<usize>> {
    entries_map(scan_classes(classes).0)
}

impl View for InheritanceTree {
    type V = Map<usize, Option<usize>>;

    closed spec fn view(&self) -> Map<usize, Option<usize>> {
        entries_map(self.inner@)
    }
}

impl InheritanceTree {
    /// The entries, in the order the classes entered.
    pub closed spec fn entries(&self) -> Seq<(usize, Option<usize>)> {
        self.inner@
    }

    /// No class has two entries.
    pub closed spec fn wf(&self) -> bool {
        entry_keys(self.inner@).no_duplicates()
    }

    proof fn lemma_wf_facts(&self)
        requires
            self.wf(),
        ensures
            self@.dom().finite(),
            self@.dom() == entry_keys(self.inner@).to_set(),
            forall|i: int| 0 <= i < self.inner@.len() ==> #[trigger] self@[self.inner@[i].0] == self.inner@[i].1,
    {
        lemma_entries_map_dom(self.inner@);
    }

    /// The hierarchy knows finitely many classes.
    pub proof fn lemma_dom_finite(&self)
        ensures
            self@.dom().finite(),
    {
        lemma_entries_map_dom(self.inner@);
    }

    /// Position of the entry for `class`.
    fn find(&self, class: usize) -> (r: Option<usize>)
        requires
            self.wf(),
        ensures
            match r {
                Some(i) => i < self.inner@.len() && self.inner@[i as int].0 == class,
                None => !self@.contains_key(class),
            },
            r is Some <==> self@.contains_key(class),
    {
        proof {
            self.lemma_wf_facts();
        }
        let mut i: usize = 0;
        while i < self.inner.len()
            invariant
                i <= self.inner@.len(),
                self@.dom() == entry_keys(self.inner@).to_set(),
                forall|j: int| 0 <= j < i ==> self.inner@[j].0 != class,
            decreases self.inner@.len() - i,
        {
            if self.inner[i].0 == class {
                proof {
                    assert(entry_keys(self.inner@)[i as int] == class);
                    assert(entry_keys(self.inner@).to_set().contains(class));
                    assert(self@.dom().contains(class));
                }
                return Some(i);
            }
            i = i + 1;
        }
        proof {
            if self@.contains_key(class) {
                let k = choose|k: int| 0 <= k < entry_keys(self.inner@).len() && entry_keys(self.inner@)[k] == class;
                assert(self.inner@[k].0 == class);
            }
        }
        None
    }

    /// Sets the parent of `class`, adding the class when it is new.
    fn set_parent(&mut self, class: usize, parent: Option<usize>)
        requires
            old(self).wf(),
        ensures
            final(self).wf(),
            final(self)@ == old(self)@.insert(class, parent),
            !old(self)@.contains_key(class) ==> final(self).inner@ == old(self).inner@.push((class, parent)),
    {
        proof {
            self.lemma_wf_facts();
        }
        match self.find(class) {
            Some(i) => {
                self.inner.set(i, (class, parent));
                proof {
                    assert(entry_keys(self.inner@) =~= entry_keys(old(self).inner@));
                    lemma_entries_map_dom(self.inner@);
                    lemma_entries_map_dom(old(self).inner@);
                    assert(self@.dom() =~= old(self)@.insert(class, parent).dom());
                    assert forall|k: usize| #[trigger] self@.contains_key(k) implies self@[k] == old(self)@.insert(class, parent)[k] by {
                        let j = choose|j: int| 0 <= j < entry_keys(self.inner@).len() && entry_keys(self.inner@)[j] == k;
                        assert(self.inner@[j].0 == k);
                        assert(self@[self.inner@[j].0] == self.inner@[j].1);
                        if j != i {
                            assert(old(self).inner@[j] == self.inner@[j]);
                            assert(old(self)@[old(self).inner@[j].0] == old(self).inner@[j].1);
                            assert(entry_keys(self.inner@)[j] != entry_keys(self.inner@)[i as int]);
                            assert(k != class);
                        } else {
                            assert(k == class);
                        }
                    }
                    assert(self@ =~= old(self)@.insert(class, parent));
                }
            },
            None => {
                self.inner.push((class, parent));
                proof {
                    assert(entry_keys(self.inner@) =~= entry_keys(old(self).inner@).push(class));
                    assert(self.inner@.drop_last() =~= old(self).inner@);
                    lemma_entries_map_dom(old(self).inner@);
                    assert(!entry_keys(old(self).inner@).contains(class));
                }
            },
        }
    }

    /// Enters the builtin classes with their parents.
    pub fn seed(&mut self)
        requires
            old(self).wf(),
        ensures
            final(self).wf(),
            final(self)@ == old(self)@.union_prefer_right(entries_map(builtin_hierarchy())),
            old(self).entries().len() == 0 ==> final(self).entries() == builtin_hierarchy(),
    {
        let classes = builtin_classes();
        let mut i: usize = 0;
        while i < classes.len()
            invariant
                i <= classes@.len(),
                classes@.len() == builtin_hierarchy().len(),
                forall|j: int|
                    0 <= j < classes@.len() ==> (#[trigger] classes@[j]).id == builtin_hierarchy()[j].0
                        && classes@[j].parent == builtin_hierarchy()[j].1,
                self.wf(),
                self@ == old(self)@.union_prefer_right(entries_map(builtin_hierarchy().take(i as int))),
                old(self).inner@.len() == 0 ==> self.inner@ == builtin_hierarchy().take(i as int),
            decreases classes@.len() - i,
        {
            let id = classes[i].id;
            let parent = classes[i].parent;
            proof {
                let h = builtin_hierarchy();
                if old(self).inner@.len() == 0 {
                    lemma_entries_map_dom(h.take(i as int));
                    assert forall|j: int| 0 <= j < i implies h[j].0 != h[i as int].0 by {}
                    assert(!entry_keys(h.take(i as int)).contains(h[i as int].0));
                    assert(!entry_keys(h.take(i as int)).to_set().contains(h[i as int].0));
                    assert(self@ =~= entries_map(h.take(i as int))) by {
                        assert(old(self)@ =~= Map::empty());
                    }
                }
            }
            self.set_parent(id, parent);
            proof {
                let h = builtin_hierarchy();
                assert(h.take(i + 1).drop_last() =~= h.take(i as int));
                assert(h.take(i + 1).last() == h[i as int]);
                assert(self@ =~= old(self)@.union_prefer_right(entries_map(h.take(i + 1))));
                if old(self).inner@.len() == 0 {
                    assert(self.inner@ =~= h.take(i + 1));
                }
            }
            i = i + 1;
        }
        proof {
            assert(builtin_hierarchy().take(i as int) =~= builtin_hierarchy());
        }
    }

    /// Whether the hierarchy knows `class`.
    pub fn contains(&self, class: usize) -> (r: bool)
        requires
            self.wf(),
        ensures
            r == self@.contains_key(class),
    {
        self.find(class).is_some()
    }

    /// The parent of `class`: `None` for `Object` and for unknown classes.
    pub fn parent(&self, class: usize) -> (r: Option<usize>)
        requires
            self.wf(),
        ensures
            r == parent_of(self@, class),
    {
        proof {
            self.lemma_wf_facts();
        }
        match self.find(class) {
            Some(i) => self.inner[i].1,
            None => None,
        }
    }
}


/// The chain of parents above `c` ends.
pub open spec fn chain_ends(m: Map<usize, Option<usize>>, c: usize) -> bool {
    exists|t: nat| #[trigger] ancestor_at(m, c, t) is None
}

/// `x` is on the chain from `a` upwards, `a` itself included.
pub open spec fn reaches(m: Map<usize, Option<usize>>, a: usize, x: usize) -> bool {
    exists|j: nat| #[trigger] ancestor_at(m, a, j) == Some(x)
}

proof fn lemma_reaches_is_subtype(m: Map<usize, Option<usize>>, a: usize, x: usize)
    ensures
        reaches(m, a, x) <==> is_subtype_of(m, a, x),
{
    if reaches(m, a, x) {
        let j = choose|j: nat| #[trigger] ancestor_at(m, a, j) == Some(x);
        if j == 0 {
            assert(x == a);
        } else {
            assert(is_ancestor_of(m, x, a));
        }
    }
    if is_subtype_of(m, a, x) {
        if x == a {
            assert(ancestor_at(m, a, 0) == Some(x));
        } else {
            let n = choose|n: nat| n >= 1 && #[trigger] ancestor_at(m, a, n) == Some(x);
            assert(ancestor_at(m, a, n) == Some(x));
        }
    }
}

/// A class with a parent is one the map knows.
proof fn lemma_first_step(m: Map<usize, Option<usize>>, c: usize, n: nat)
    requires
        n >= 1,
        ancestor_at(m, c, n) is Some,
    ensures
        m.contains_key(c),
        ancestor_at(m, c, 1) is Some,
{
    lemma_ancestor_add(m, c, 1, (n - 1) as nat);
    assert(1 + (n - 1) as nat == n);
    assert(ancestor_at(m, c, 1) == parent_of(m, c)) by {
        assert(ancestor_at(m, c, 0) == Some(c));
    }
}

impl InheritanceTree {
    /// Whether the chain of parents of some class comes back to it.
    fn has_cycle(&self) -> (r: bool)
        requires
            self.wf(),
        ensures
            r == !acyclic(self@),
    {
        proof {
            self.lemma_wf_facts();
        }
        let ghost m = self@;
        let mut idx: usize = 0;
        while idx < self.inner.len()
            invariant
                self.wf(),
                m == self@,
                m.dom() == entry_keys(self.inner@).to_set(),
                m.dom().finite(),
                idx <= self.inner@.len(),
                forall|j: int| 0 <= j < idx ==> chain_ends(m, (#[trigger] self.inner@[j]).0),
            decreases self.inner@.len() - idx,
        {
            let key = self.inner[idx].0;
            let mut seen: HashSet<usize> = HashSet::new();
            seen.insert(key);
            let mut current = self.parent(key);
            let ghost mut path: Seq<usize> = seq![key];
            proof {
                assert(ancestor_at(m, key, 0) == Some(key));
                assert(ancestor_at(m, key, 1) == parent_of(m, key));
                assert(seen@ =~= path.to_set()) by {
                    assert forall|x: usize| path.contains(x) <==> x == key by {
                        if x == key {
                            assert(path[0] == key);
                        }
                    }
                }
            }
            while current.is_some()
                invariant
                    self.wf(),
                    m == self@,
                    m.dom().finite(),
                    path.len() >= 1,
                    path[0] == key,
                    forall|i: int| 0 <= i < path.len() ==> ancestor_at(m, key, i as nat) == Some(#[trigger] path[i]),
                    current == ancestor_at(m, key, path.len()),
                    seen@ == path.to_set(),
                    path.no_duplicates(),
                    forall|i: int| 0 <= i < path.len() - 1 ==> m.dom().contains(#[trigger] path[i]),
                    path.len() - 1 <= m.dom().len(),
                decreases m.dom().len() + 1 - path.len(),
            {
                let class = current.unwrap();
                proof {
                    lemma_ancestor_step_in_dom(m, key, (path.len() - 1) as nat);
                    assert(ancestor_at(m, key, (path.len() - 1) as nat) == Some(path.last()));
                }
                if !seen.insert(class) {
                    proof {
                        let j = choose|j: int| 0 <= j < path.len() && path[j] == class;
                        lemma_ancestor_add(m, key, j as nat, (path.len() - j) as nat);
                        assert(j as nat + (path.len() - j) as nat == path.len());
                        assert(ancestor_at(m, class, (path.len() - j) as nat) == Some(class));
                    }
                    return true;
                }
                proof {
                    let np = path.push(class);
                    assert(np.to_set() =~= path.to_set().insert(class)) by {
                        assert forall|x: usize| np.contains(x) implies #[trigger] path.to_set().insert(class).contains(x) by {
                            let j = choose|j: int| 0 <= j < np.len() && np[j] == x;
                            if j < path.len() {
                                assert(path[j] == x);
                            }
                        }
                        assert forall|x: usize| #[trigger] path.to_set().insert(class).contains(x) implies np.contains(x) by {
                            if x == class {
                                assert(np[np.len() - 1] == x);
                            } else {
                                let j = choose|j: int| 0 <= j < path.len() && path[j] == x;
                                assert(np[j] == x);
                            }
                        }
                    }
                    assert forall|i: int| 0 <= i < np.len() - 1 implies m.dom().contains(#[trigger] np[i]) by {
                        if i < path.len() - 1 {
                            assert(np[i] == path[i]);
                        } else {
                            assert(np[i] == path.last());
                        }
                    }
                    lemma_distinct_bounded(np.take(np.len() - 1), m.dom());
                    assert(np.take(np.len() - 1) =~= path);
                    path = np;
                }
                current = self.parent(class);
                proof {
                    assert(ancestor_at(m, key, path.len()) == parent_of(m, class)) by {
                        assert(ancestor_at(m, key, (path.len() - 1) as nat) == Some(class));
                    }
                }
            }
            proof {
                assert(ancestor_at(m, self.inner@[idx as int].0, path.len()) is None);
                assert(chain_ends(m, self.inner@[idx as int].0));
            }
            idx = idx + 1;
        }
        proof {
            assert forall|c: usize, n: nat| n >= 1 implies #[trigger] ancestor_at(m, c, n) != Some(c) by {
                if ancestor_at(m, c, n) == Some(c) {
                    lemma_first_step(m, c, n);
                    assert(entry_keys(self.inner@).to_set().contains(c));
                    let j = choose|j: int| 0 <= j < entry_keys(self.inner@).len() && entry_keys(self.inner@)[j] == c;
                    assert(self.inner@[j].0 == c);
                    assert(chain_ends(m, self.inner@[j].0));
                    let t = choose|t: nat| #[trigger] ancestor_at(m, c, t) is None;
                    lemma_cycle_never_ends(m, c, n, t);
                }
            }
        }
        false
    }

    /// Whether `ancestor` lies above `descendant` in the hierarchy.
    pub fn is_ancestor(&self, ancestor: usize, descendant: usize) -> (r: bool)
        requires
            self.wf(),
            acyclic(self@),
        ensures
            r == is_ancestor_of(self@, ancestor, descendant),
    {
        proof {
            self.lemma_wf_facts();
        }
        let ghost m = self@;
        let ghost end = lemma_chain_has_end(m, descendant);
        let mut current = descendant;
        let ghost mut i: nat = 0;
        loop
            invariant
                self.wf(),
                m == self@,
                ancestor_at(m, descendant, i) == Some(current),
                ancestor_at(m, descendant, end) is None,
                i < end,
                forall|j: nat| 1 <= j <= i ==> #[trigger] ancestor_at(m, descendant, j) != Some(ancestor),
            decreases end - i,
        {
            let p = self.parent(current);
            proof {
                assert(ancestor_at(m, descendant, i + 1) == parent_of(m, current));
            }
            match p {
                Some(p) => {
                    if p == ancestor {
                        proof {
                            assert(ancestor_at(m, descendant, i + 1) == Some(ancestor));
                        }
                        return true;
                    }
                    current = p;
                    proof {
                        i = i + 1;
                        if end <= i {
                            lemma_ancestor_none_stays(m, descendant, end, i);
                        }
                    }
                },
                None => {
                    proof {
                        assert forall|n: nat| n >= 1 implies #[trigger] ancestor_at(m, descendant, n) != Some(ancestor) by {
                            if n > i {
                                lemma_ancestor_none_stays(m, descendant, i + 1, n);
                            }
                        }
                    }
                    return false;
                },
            }
        }
    }

    /// Whether `subtype` is `supertype` or below it.
    pub fn is_subtype(&self, subtype: usize, supertype: usize) -> (r: bool)
        requires
            self.wf(),
            acyclic(self@),
        ensures
            r == is_subtype_of(self@, subtype, supertype),
    {
        subtype == supertype || self.is_ancestor(supertype, subtype)
    }

    /// Whether the chains of parents above `a` and above `b` meet.
    pub fn have_common_ancestor(&self, a: usize, b: usize) -> (r: bool)
        requires
            self.wf(),
            acyclic(self@),
        ensures
            r == common_ancestor_exists(self@, a, b),
    {
        proof {
            self.lemma_wf_facts();
        }
        let ghost m = self@;
        let ghost end = lemma_chain_has_end(m, a);
        let mut current = a;
        let ghost mut i: nat = 0;
        proof {
            assert(ancestor_at(m, a, 0) == Some(a));
        }
        loop
            invariant
                self.wf(),
                m == self@,
                acyclic(m),
                ancestor_at(m, a, i) == Some(current),
                ancestor_at(m, a, end) is None,
                i < end,
                forall|k: nat|
                    k < i ==> match #[trigger] ancestor_at(m, a, k) {
                        Some(y) => !is_subtype_of(m, b, y),
                        None => true,
                    },
            decreases end - i,
        {
            if self.is_subtype(b, current) {
                proof {
                    lemma_reaches_is_subtype(m, b, current);
                    let j = choose|j: nat| #[trigger] ancestor_at(m, b, j) == Some(current);
                    assert(ancestor_at(m, a, i) is Some && ancestor_at(m, a, i) == ancestor_at(m, b, j));
                }
                return true;
            }
            let p = self.parent(current);
            proof {
                assert(ancestor_at(m, a, i + 1) == parent_of(m, current));
            }
            match p {
                Some(p) => {
                    current = p;
                    proof {
                        i = i + 1;
                        if end <= i {
                            lemma_ancestor_none_stays(m, a, end, i);
                        }
                    }
                },
                None => {
                    proof {
                        if common_ancestor_exists(m, a, b) {
                            let (i0, j0) = choose|i0: nat, j0: nat|
                                #[trigger] ancestor_at(m, a, i0) is Some && ancestor_at(m, a, i0) == #[trigger] ancestor_at(m, b, j0);
                            let x = ancestor_at(m, a, i0).unwrap();
                            if i0 > i {
                                lemma_ancestor_none_stays(m, a, i + 1, i0);
                            }
                            assert(reaches(m, b, x));
                            lemma_reaches_is_subtype(m, b, x);
                            assert(false);
                        }
                    }
                    return false;
                },
            }
        }
    }

    /// The least upper bound of `a` and `b`: the first class on the chain
    /// from `b` upwards that `a` is a subtype of.
    pub fn lub(&self, a: usize, b: usize) -> (r: usize)
        requires
            self.wf(),
            acyclic(self@),
            common_ancestor_exists(self@, a, b),
        ensures
            is_lub(self@, a, b, r),
    {
        proof {
            self.lemma_wf_facts();
        }
        let ghost m = self@;
        let ghost end_a = lemma_chain_has_end(m, a);
        let ghost end_b = lemma_chain_has_end(m, b);
        let mut a_anc: HashSet<usize> = HashSet::new();
        let mut current = Some(a);
        let ghost mut i: nat = 0;
        proof {
            assert(ancestor_at(m, a, 0) == Some(a));
            assert(a_anc@ =~= Set::new(|x: usize| exists|j: nat| j < i && #[trigger] ancestor_at(m, a, j) == Some(x)));
        }
        while current.is_some()
            invariant
                self.wf(),
                m == self@,
                current == ancestor_at(m, a, i),
                ancestor_at(m, a, end_a) is None,
                i <= end_a,
                a_anc@ == Set::new(|x: usize| exists|j: nat| j < i && #[trigger] ancestor_at(m, a, j) == Some(x)),
            decreases end_a - i,
        {
            let class = current.unwrap();
            a_anc.insert(class);
            current = self.parent(class);
            proof {
                assert(ancestor_at(m, a, i + 1) == parent_of(m, class));
                let ni = i + 1;
                assert(a_anc@ =~= Set::new(|x: usize| exists|j: nat| j < ni && #[trigger] ancestor_at(m, a, j) == Some(x))) by {
                    assert forall|x: usize| a_anc@.contains(x) implies exists|j: nat| j < ni && #[trigger] ancestor_at(m, a, j) == Some(x) by {
                        if x == class {
                            assert(ancestor_at(m, a, i) == Some(x));
                        }
                    }
                    assert forall|x: usize| (exists|j: nat| j < ni && #[trigger] ancestor_at(m, a, j) == Some(x)) implies a_anc@.contains(x) by {
                        let j = choose|j: nat| j < ni && #[trigger] ancestor_at(m, a, j) == Some(x);
                        if j == i {
                            assert(x == class);
                        }
                    }
                }
                i = ni;
                if end_a < i {
                    lemma_ancestor_none_stays(m, a, end_a, i);
                }
            }
        }
        proof {
            assert forall|x: usize| a_anc@.contains(x) <==> is_subtype_of(m, a, x) by {
                lemma_reaches_is_subtype(m, a, x);
                if reaches(m, a, x) {
                    let j = choose|j: nat| #[trigger] ancestor_at(m, a, j) == Some(x);
                    if j >= i {
                        lemma_ancestor_none_stays(m, a, i, j);
                    }
                    assert(exists|j: nat| j < i && #[trigger] ancestor_at(m, a, j) == Some(x));
                }
                if a_anc@.contains(x) {
                    let j = choose|j: nat| j < i && #[trigger] ancestor_at(m, a, j) == Some(x);
                    assert(reaches(m, a, x));
                }
            }
        }
        let mut current = Some(b);
        let ghost mut k: nat = 0;
        proof {
            assert(ancestor_at(m, b, 0) == Some(b));
        }
        loop
            invariant
                self.wf(),
                m == self@,
                common_ancestor_exists(m, a, b),
                current == ancestor_at(m, b, k),
                ancestor_at(m, b, end_b) is None,
                k <= end_b,
                forall|x: usize| a_anc@.contains(x) <==> is_subtype_of(m, a, x),
                forall|j: nat|
                    j < k ==> match #[trigger] ancestor_at(m, b, j) {
                        Some(y) => !is_subtype_of(m, a, y),
                        None => true,
                    },
            decreases end_b - k,
        {
            match current {
                Some(class) => {
                    if a_anc.contains(&class) {
                        return class;
                    }
                    current = self.parent(class);
                    proof {
                        assert(ancestor_at(m, b, k + 1) == parent_of(m, class));
                        k = k + 1;
                        if end_b < k {
                            lemma_ancestor_none_stays(m, b, end_b, k);
                        }
                    }
                },
                None => {
                    proof {
                        let (i0, j0) = choose|i0: nat, j0: nat|
                            #[trigger] ancestor_at(m, a, i0) is Some && ancestor_at(m, a, i0) == #[trigger] ancestor_at(m, b, j0);
                        let x = ancestor_at(m, a, i0).unwrap();
                        assert(reaches(m, a, x));
                        lemma_reaches_is_subtype(m, a, x);
                        if j0 >= k {
                            lemma_ancestor_none_stays(m, b, k, j0);
                        }
                        assert(false);
                    }
                    return OBJECT_ID;
                },
            }
        }
    }

    /// The hierarchy of the builtin classes and the valid classes of
    /// `ast`, or every error found in it: classes declared twice, parents
    /// that are not declared, and a cycle.
    pub fn build(ast: &Program) -> (r: Result<Self, Vec<SemanticError>>)
        ensures
            match r {
                Ok(tree) => {
                    &&& tree.wf()
                    &&& tree@ == hierarchy_of(ast.classes@)
                    &&& acyclic(tree@)
                    &&& rooted_at_object(tree@)
                    &&& hierarchy_errors(ast.classes@).len() == 0
                },
                Err(errs) => {
                    &&& errs@ == hierarchy_errors(ast.classes@)
                    &&& errs@.len() > 0
                },
            },
    {
        let mut tree = Self { inner: Vec::new() };
        let mut err: Vec<SemanticError> = Vec::new();
        proof {
            assert(entry_keys(tree.inner@) =~= Seq::<usize>::empty());
        }
        tree.seed();
        let mut idx: usize = 0;
        proof {
            assert(ast.classes@.take(0) =~= Seq::<Class>::empty());
        }
        while idx < ast.classes.len()
            invariant
                tree.wf(),
                idx <= ast.classes@.len(),
                (tree.inner@, err@) == scan_classes(ast.classes@.take(idx as int)),
            decreases ast.classes@.len() - idx,
        {
            proof {
                tree.lemma_wf_facts();
                assert(ast.classes@.take(idx + 1).drop_last() =~= ast.classes@.take(idx as int));
                assert(ast.classes@.take(idx + 1).last() == ast.classes@[idx as int]);
            }
            match &ast.classes[idx] {
                Class::Valid { name, parent, .. } => {
                    if tree.contains(*name) {
                        proof {
                            assert(entry_keys(tree.inner@).contains(*name));
                        }
                        err.push(SemanticError { kind: SemanticErrorKind::DuplicateClass { name: *name }, span: None });
                    } else {
                        proof {
                            if entry_keys(tree.inner@).contains(*name) {
                                assert(entry_keys(tree.inner@).to_set().contains(*name));
                            }
                        }
                        let parent = match parent {
                            Some(p) => Some(*p),
                            None => Some(OBJECT_ID),
                        };
                        tree.set_parent(*name, parent);
                    }
                },
                Class::Invalid => {},
            }
            idx = idx + 1;
        }
        proof {
            assert(ast.classes@.take(idx as int) =~= ast.classes@);
            tree.lemma_wf_facts();
        }
        let ghost dups = err@;
        let ghost m = tree@;
        let mut j: usize = 0;
        proof {
            assert(tree.inner@.take(0) =~= Seq::<(usize, Option<usize>)>::empty());
            assert(err@ =~= dups + undefined_parent_errors(tree.inner@.take(0), m));
        }
        while j < tree.inner.len()
            invariant
                tree.wf(),
                m == tree@,
                j <= tree.inner@.len(),
                err@ == dups + undefined_parent_errors(tree.inner@.take(j as int), m),
            decreases tree.inner@.len() - j,
        {
            proof {
                assert(tree.inner@.take(j + 1).drop_last() =~= tree.inner@.take(j as int));
                assert(tree.inner@.take(j + 1).last() == tree.inner@[j as int]);
            }
            match tree.inner[j].1 {
                Some(p) => {
                    if !tree.contains(p) {
                        err.push(SemanticError { kind: SemanticErrorKind::UndefinedClass { name: p }, span: None });
                    }
                },
                None => {},
            }
            proof {
                let tk = tree.inner@.take(j + 1);
                assert(err@ =~= dups + undefined_parent_errors(tk, m));
            }
            j = j + 1;
        }
        proof {
            assert(tree.inner@.take(j as int) =~= tree.inner@);
        }
        if tree.has_cycle() {
            err.push(SemanticError { kind: SemanticErrorKind::InheritanceCycle, span: None });
        }
        proof {
            assert(err@ =~= hierarchy_errors(ast.classes@));
        }
        if err.len() > 0 {
            return Err(err);
        }
        proof {
            lemma_built_hierarchy_rooted(ast.classes@);
        }
        Ok(tree)
    }
}


// ---------------------------------------------------------------------------
// Laws of the hierarchy

/// Subtyping is transitive: below a subtype of `t` means below `t`.
pub proof fn lemma_subtype_transitive(m: Map<usize, Option<usize>>, a: usize, b: usize, c: usize)
    requires
        is_subtype_of(m, a, b),
        is_subtype_of(m, b, c),
    ensures
        is_subtype_of(m, a, c),
{
    lemma_reaches_is_subtype(m, a, b);
    lemma_reaches_is_subtype(m, b, c);
    lemma_reaches_is_subtype(m, a, c);
    let i = choose|i: nat| #[trigger] ancestor_at(m, a, i) == Some(b);
    let j = choose|j: nat| #[trigger] ancestor_at(m, b, j) == Some(c);
    lemma_ancestor_add(m, a, i, j);
    assert(ancestor_at(m, a, i + j) == Some(c));
}

/// In a hierarchy without cycles, two classes that are subtypes of each
/// other are the same class.
pub proof fn lemma_subtype_antisymmetric(m: Map<usize, Option<usize>>, a: usize, b: usize)
    requires
        acyclic(m),
        is_subtype_of(m, a, b),
        is_subtype_of(m, b, a),
    ensures
        a == b,
{
    if a != b {
        let i = choose|n: nat| n >= 1 && #[trigger] ancestor_at(m, a, n) == Some(b);
        let j = choose|n: nat| n >= 1 && #[trigger] ancestor_at(m, b, n) == Some(a);
        lemma_ancestor_add(m, a, i, j);
        assert(ancestor_at(m, a, i + j) == Some(a));
    }
}

/// The least upper bound is an upper bound of both classes, and it is a
/// subtype of every other common upper bound.
pub proof fn lemma_lub_is_least_upper_bound(
    m: Map<usize, Option<usize>>,
    a: usize,
    b: usize,
    r: usize,
    t: usize,
)
    requires
        is_lub(m, a, b, r),
    ensures
        is_subtype_of(m, a, r),
        is_subtype_of(m, b, r),
        is_subtype_of(m, a, t) && is_subtype_of(m, b, t) ==> is_subtype_of(m, r, t),
{
    let k = choose|k: nat|
        {
            &&& #[trigger] ancestor_at(m, b, k) == Some(r)
            &&& is_subtype_of(m, a, r)
            &&& forall|j: nat|
                j < k ==> match #[trigger] ancestor_at(m, b, j) {
                    Some(y) => !is_subtype_of(m, a, y),
                    None => true,
                }
        };
    assert(reaches(m, b, r));
    lemma_reaches_is_subtype(m, b, r);
    if is_subtype_of(m, a, t) && is_subtype_of(m, b, t) {
        lemma_reaches_is_subtype(m, b, t);
        let j = choose|j: nat| #[trigger] ancestor_at(m, b, j) == Some(t);
        if j < k {
            assert(!is_subtype_of(m, a, t));
        } else {
            lemma_ancestor_add(m, b, k, (j - k) as nat);
            assert(k + (j - k) as nat == j);
            assert(ancestor_at(m, r, (j - k) as nat) == Some(t));
            assert(reaches(m, r, t));
            lemma_reaches_is_subtype(m, r, t);
        }
    }
}

/// Without cycles the least upper bound does not depend on the order of
/// its two arguments.
pub proof fn lemma_lub_symmetric(m: Map<usize, Option<usize>>, a: usize, b: usize, r1: usize, r2: usize)
    requires
        acyclic(m),
        is_lub(m, a, b, r1),
        is_lub(m, b, a, r2),
    ensures
        r1 == r2,
{
    lemma_lub_is_least_upper_bound(m, a, b, r1, r2);
    lemma_lub_is_least_upper_bound(m, b, a, r2, r1);
    lemma_subtype_antisymmetric(m, r1, r2);
}

/// Every class a hierarchy knows lies below `Object`, which has no parent.
pub open spec fn rooted_at_object(m: Map<usize, Option<usize>>) -> bool {
    &&& m.contains_key(OBJECT_ID)
    &&& m[OBJECT_ID] is None
    &&& forall|c: usize| #[trigger] m.contains_key(c) ==> is_subtype_of(m, c, OBJECT_ID)
}

proof fn lemma_scan_shape(classes: Seq<Class>)
    ensures
        ({
            let es = scan_classes(classes).0;
            &&& es.len() >= builtin_hierarchy().len()
            &&& forall|i: int| 0 <= i < builtin_hierarchy().len() ==> es[i] == builtin_hierarchy()[i]
            &&& forall|i: int| 0 <= i < es.len() && (#[trigger] es[i]).1 is None ==> es[i].0 == OBJECT_ID
            &&& entry_keys(es).no_duplicates()
        }),
    decreases classes.len(),
{
    if classes.len() == 0 {
        let h = builtin_hierarchy();
        assert(entry_keys(h) =~= seq![OBJECT_ID, crate::semantic_analysis::builtins::IO_ID,
            crate::semantic_analysis::builtins::INT_ID, crate::semantic_analysis::builtins::STRING_ID,
            crate::semantic_analysis::builtins::BOOL_ID]);
    } else {
        lemma_scan_shape(classes.drop_last());
        let es0 = scan_classes(classes.drop_last()).0;
        let es = scan_classes(classes).0;
        match classes.last() {
            Class::Valid { name, parent, .. } => {
                if !entry_keys(es0).contains(name) {
                    assert(entry_keys(es) =~= entry_keys(es0).push(name));
                    assert forall|i: int| 0 <= i < es.len() && (#[trigger] es[i]).1 is None implies es[i].0 == OBJECT_ID by {
                        if i < es0.len() {
                            assert(es[i] == es0[i]);
                        }
                    }
                }
            },
            Class::Invalid => {},
        }
    }
}

proof fn lemma_no_undefined_parents(es: Seq<(usize, Option<usize>)>, m: Map<usize, Option<usize>>)
    requires
        undefined_parent_errors(es, m).len() == 0,
    ensures
        forall|i: int| 0 <= i < es.len() && (#[trigger] es[i]).1 is Some ==> m.contains_key(es[i].1.unwrap()),
    decreases es.len(),
{
    if es.len() > 0 {
        let rest = undefined_parent_errors(es.drop_last(), m);
        assert(rest.len() <= undefined_parent_errors(es, m).len());
        lemma_no_undefined_parents(es.drop_last(), m);
        assert forall|i: int| 0 <= i < es.len() && (#[trigger] es[i]).1 is Some implies m.contains_key(es[i].1.unwrap()) by {
            if i < es.len() - 1 {
                assert(es.drop_last()[i] == es[i]);
            }
        }
    }
}

/// A hierarchy that `build` accepts is rooted at `Object`: every class in
/// it is a subtype of `Object`.
pub proof fn lemma_built_hierarchy_rooted(classes: Seq<Class>)
    requires
        hierarchy_errors(classes).len() == 0,
    ensures
        acyclic(hierarchy_of(classes)),
        rooted_at_object(hierarchy_of(classes)),
{
    let (es, dups) = scan_classes(classes);
    let m = entries_map(es);
    lemma_scan_shape(classes);
    lemma_entries_map_dom(es);
    let undefined = undefined_parent_errors(es, m);
    let cycle = if acyclic(m) {
        Seq::<SemanticError>::empty()
    } else {
        seq![plain_error(SemanticErrorKind::InheritanceCycle)]
    };
    assert(hierarchy_errors(classes) == dups + undefined + cycle);
    assert(undefined.len() == 0);
    assert(acyclic(m));
    lemma_no_undefined_parents(es, m);
    assert(es[0] == builtin_hierarchy()[0]);
    assert(entry_keys(es)[0] == OBJECT_ID);
    assert(entry_keys(es).to_set().contains(OBJECT_ID));
    assert(m[es[0].0] == es[0].1);
    assert forall|c: usize| #[trigger] m.contains_key(c) implies is_subtype_of(m, c, OBJECT_ID) by {
        lemma_chain_ends(m, c);
        let end = m.dom().len() + 1;
        // the last class on the chain from `c`
        let t = last_on_chain(m, c, end);
        let x = ancestor_at(m, c, t).unwrap();
        assert(ancestor_at(m, c, t + 1) == parent_of(m, x));
        assert(m.contains_key(x)) by {
            if t == 0 {
            } else {
                lemma_ancestor_step_in_dom(m, c, (t - 1) as nat);
                let y = ancestor_at(m, c, (t - 1) as nat).unwrap();
                assert(ancestor_at(m, c, t) == parent_of(m, y));
                let j = choose|j: int| 0 <= j < entry_keys(es).len() && entry_keys(es)[j] == y;
                assert(m[es[j].0] == es[j].1);
                assert(es[j].1 is Some);
            }
        }
        let j = choose|j: int| 0 <= j < entry_keys(es).len() && entry_keys(es)[j] == x;
        assert(m[es[j].0] == es[j].1);
        assert(es[j].1 is None);
        assert(x == OBJECT_ID);
        assert(reaches(m, c, OBJECT_ID));
        lemma_reaches_is_subtype(m, c, OBJECT_ID);
    }
}

/// The name of a class that a program declares and the parent it enters
/// the hierarchy with: the one it names, `Object` where it names none.
pub open spec fn declared_parent(c: Class) -> Option<(usize, usize)> {
    match c {
        Class::Valid { name, parent, .. } => Some(
            (
                name,
                match parent {
                    Some(p) => p,
                    None => OBJECT_ID,
                },
            ),
        ),
        Class::Invalid => None,
    }
}

/// Without a duplicate class, each declared class has an entry with its
/// parent, and every entry is a builtin class or a declared one.
proof fn lemma_scan_entries(classes: Seq<Class>)
    requires
        scan_classes(classes).1.len() == 0,
    ensures
        ({
            let es = scan_classes(classes).0;
            &&& forall|i: int|
                0 <= i < classes.len() && (#[trigger] declared_parent(classes[i])) is Some ==> exists|j: int|
                    0 <= j < es.len() && es[j] == (declared_parent(classes[i]).unwrap().0, Some(
                        declared_parent(classes[i]).unwrap().1,
                    ))
            &&& forall|j: int|
                builtin_hierarchy().len() <= j < es.len() ==> exists|i: int|
                    0 <= i < classes.len() && #[trigger] declared_parent(classes[i]) == Some(
                        ((#[trigger] es[j]).0, es[j].1.unwrap()),
                    )
        }),
    decreases classes.len(),
{
    if classes.len() > 0 {
        let prev = classes.drop_last();
        let (es0, errs0) = scan_classes(prev);
        let es = scan_classes(classes).0;
        match classes.last() {
            Class::Valid { name, .. } => {
                if entry_keys(es0).contains(name) {
                    assert(scan_classes(classes).1 == errs0.push(duplicate_error(name)));
                } else {
                    assert(scan_classes(classes).1 == errs0);
                }
            },
            Class::Invalid => {},
        }
        lemma_scan_entries(prev);
        assert forall|i: int|
            0 <= i < classes.len() && (#[trigger] declared_parent(classes[i])) is Some implies exists|j: int|
                0 <= j < es.len() && es[j] == (declared_parent(classes[i]).unwrap().0, Some(
                    declared_parent(classes[i]).unwrap().1,
                )) by {
            if i < classes.len() - 1 {
                assert(classes[i] == prev[i]);
                assert(declared_parent(prev[i]) is Some);
                let j = choose|j: int|
                    0 <= j < es0.len() && es0[j] == (declared_parent(prev[i]).unwrap().0, Some(
                        declared_parent(prev[i]).unwrap().1,
                    ));
                assert(es[j] == es0[j]);
            } else {
                assert(es[es0.len() as int] == (declared_parent(classes[i]).unwrap().0, Some(
                    declared_parent(classes[i]).unwrap().1,
                )));
            }
        }
        assert forall|j: int| builtin_hierarchy().len() <= j < es.len() implies exists|i: int|
            0 <= i < classes.len() && #[trigger] declared_parent(classes[i]) == Some(
                ((#[trigger] es[j]).0, es[j].1.unwrap()),
            ) by {
            if j < es0.len() {
                assert(es[j] == es0[j]);
                let i = choose|i: int|
                    0 <= i < prev.len() && #[trigger] declared_parent(prev[i]) == Some((es0[j].0, es0[j].1.unwrap()));
                assert(classes[i] == prev[i]);
            } else {
                assert(declared_parent(classes[classes.len() - 1]) == Some((es[j].0, es[j].1.unwrap())));
            }
        }
    }
}

/// Where `build` accepts a program, each class it declares has the parent
/// it names, `Object` where it names none, and the hierarchy knows the
/// builtin classes and the declared classes and no other.
pub proof fn lemma_built_hierarchy_parents(classes: Seq<Class>)
    requires
        hierarchy_errors(classes).len() == 0,
    ensures
        forall|i: int|
            0 <= i < classes.len() && (#[trigger] declared_parent(classes[i])) is Some ==> ({
                let (name, parent) = declared_parent(classes[i]).unwrap();
                hierarchy_of(classes).contains_key(name) && hierarchy_of(classes)[name] == Some(parent)
            }),
        forall|c: usize|
            #[trigger] hierarchy_of(classes).contains_key(c) <==> (entry_keys(builtin_hierarchy()).contains(c)
                || exists|i: int|
                0 <= i < classes.len() && (#[trigger] declared_parent(classes[i])) is Some
                    && declared_parent(classes[i]).unwrap().0 == c),
{
    let (es, dups) = scan_classes(classes);
    let m = entries_map(es);
    let h = builtin_hierarchy();
    lemma_scan_shape(classes);
    lemma_entries_map_dom(es);
    assert(hierarchy_errors(classes).len() >= dups.len());
    lemma_scan_entries(classes);
    assert forall|i: int|
        0 <= i < classes.len() && (#[trigger] declared_parent(classes[i])) is Some implies ({
            let (name, parent) = declared_parent(classes[i]).unwrap();
            m.contains_key(name) && m[name] == Some(parent)
        }) by {
        let (name, parent) = declared_parent(classes[i]).unwrap();
        let j = choose|j: int| 0 <= j < es.len() && es[j] == (name, Some(parent));
        assert(entry_keys(es)[j] == name);
        assert(m[es[j].0] == es[j].1);
    }
    assert forall|c: usize| #[trigger] m.contains_key(c) <==> (entry_keys(h).contains(c) || exists|i: int|
        0 <= i < classes.len() && (#[trigger] declared_parent(classes[i])) is Some
            && declared_parent(classes[i]).unwrap().0 == c) by {
        if m.contains_key(c) {
            let j = choose|j: int| 0 <= j < entry_keys(es).len() && entry_keys(es)[j] == c;
            if j < h.len() {
                assert(es[j] == h[j]);
                assert(entry_keys(h)[j] == c);
            } else {
                let i = choose|i: int|
                    0 <= i < classes.len() && #[trigger] declared_parent(classes[i]) == Some((es[j].0, es[j].1.unwrap()));
                assert(declared_parent(classes[i]) is Some);
            }
        }
        if entry_keys(h).contains(c) {
            let j = choose|j: int| 0 <= j < entry_keys(h).len() && entry_keys(h)[j] == c;
            assert(es[j] == h[j]);
            assert(entry_keys(es)[j] == c);
        }
        if exists|i: int|
            0 <= i < classes.len() && (#[trigger] declared_parent(classes[i])) is Some
                && declared_parent(classes[i]).unwrap().0 == c {
            let i = choose|i: int|
                0 <= i < classes.len() && (#[trigger] declared_parent(classes[i])) is Some
                    && declared_parent(classes[i]).unwrap().0 == c;
            let (name, parent) = declared_parent(classes[i]).unwrap();
            let j = choose|j: int| 0 <= j < es.len() && es[j] == (name, Some(parent));
            assert(entry_keys(es)[j] == c);
        }
    }
}

/// The last step on the chain from `c` that still has a class, given a
/// step `end` that has none.
proof fn last_on_chain(m: Map<usize, Option<usize>>, c: usize, end: nat) -> (t: nat)
    requires
        ancestor_at(m, c, end) is None,
    ensures
        t < end,
        ancestor_at(m, c, t) is Some,
        ancestor_at(m, c, t + 1) is None,
    decreases end,
{
    let p = (end - 1) as nat;
    if ancestor_at(m, c, p) is Some {
        assert(p + 1 == end);
        p
    } else {
        last_on_chain(m, c, p)
    }
}

/// Any two classes of a hierarchy rooted at `Object` have a least upper
/// bound.
pub proof fn lemma_rooted_common_ancestor(m: Map<usize, Option<usize>>, a: usize, b: usize)
    requires
        rooted_at_object(m),
        m.contains_key(a),
        m.contains_key(b),
    ensures
        common_ancestor_exists(m, a, b),
{
    lemma_reaches_is_subtype(m, a, OBJECT_ID);
    lemma_reaches_is_subtype(m, b, OBJECT_ID);
    let i = choose|j: nat| #[trigger] ancestor_at(m, a, j) == Some(OBJECT_ID);
    let j = choose|j: nat| #[trigger] ancestor_at(m, b, j) == Some(OBJECT_ID);
    assert(ancestor_at(m, a, i) is Some && ancestor_at(m, a, i) == ancestor_at(m, b, j));
}


/// The least upper bound is unique.
pub proof fn lemma_lub_unique(m: Map<usize, Option<usize>>, a: usize, b: usize, r1: usize, r2: usize)
    requires
        is_lub(m, a, b, r1),
        is_lub(m, a, b, r2),
    ensures
        r1 == r2,
{
    let k1 = choose|k: nat|
        {
            &&& #[trigger] ancestor_at(m, b, k) == Some(r1)
            &&& is_subtype_of(m, a, r1)
            &&& forall|j: nat|
                j < k ==> match #[trigger] ancestor_at(m, b, j) {
                    Some(y) => !is_subtype_of(m, a, y),
                    None => true,
                }
        };
    let k2 = choose|k: nat|
        {
            &&& #[trigger] ancestor_at(m, b, k) == Some(r2)
            &&& is_subtype_of(m, a, r2)
            &&& forall|j: nat|
                j < k ==> match #[trigger] ancestor_at(m, b, j) {
                    Some(y) => !is_subtype_of(m, a, y),
                    None => true,
                }
        };
    if k1 < k2 {
        assert(ancestor_at(m, b, k1) == Some(r1));
    } else if k2 < k1 {
        assert(ancestor_at(m, b, k2) == Some(r2));
    }
}
} // verus!
