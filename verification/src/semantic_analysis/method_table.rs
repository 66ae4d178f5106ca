use vstd::prelude::*;

use crate::parse_tree::{Class, Feature, Formal, Program};
use crate::semantic_analysis::inheritance_tree::{
    acyclic, ancestor_at, lemma_ancestor_none_stays, lemma_chain_ends, parent_of, InheritanceTree,
};
use crate::semantic_analysis::builtins::{builtin_classes, builtin_hierarchy, builtin_signatures, method_views};
use crate::semantic_analysis::{plain_error, SemanticError, SemanticErrorKind};

verus! {

/// The type of a value: a class, or `SELF_TYPE`, the class of `self`.
#[derive(Debug, PartialEq, Eq, Structural, Clone, Copy)]
pub enum ReturnType {
    SelfType,
    Type(usize),
}

/// A formal parameter of a method: its name and its declared class.
#[derive(Debug, PartialEq, Eq, Structural, Clone, Copy)]
pub struct FormalInfo {
    pub name: usize,
    pub ty: usize,
}

impl FormalInfo {
    pub fn new(name: usize, ty: usize) -> (f: Self)
        ensures
            f == (FormalInfo { name, ty }),
    {
        Self { name, ty }
    }

    pub fn name(&self) -> (n: usize)
        ensures
            n == self.name,
    {
        self.name
    }

    pub fn ty(&self) -> (t: usize)
        ensures
            t == self.ty,
    {
        self.ty
    }
}

/// The signature of a method: its formal parameters and its return type.
#[derive(Debug, PartialEq)]
pub struct MethodInfo {
    pub formal_info: Vec<FormalInfo>,
    pub return_type: ReturnType,
}

/// A signature as a value: the formals, in order, and the return type.
pub type Signature = (Seq<FormalInfo>, ReturnType);

impl View for MethodInfo {
    type V = Signature;

    open spec fn view(&self) -> Signature {
        (self.formal_info@, self.return_type)
    }
}

/// Same return type, same number of formals and the same type for each.
pub open spec fn same_signature(a: Signature, b: Signature) -> bool {
    &&& a.1 == b.1
    &&& a.0.len() == b.0.len()
    &&& forall|i: int| 0 <= i < a.0.len() ==> (#[trigger] a.0[i]).ty == b.0[i].ty
}

/// Two signatures that are the same have the same number of formals:
/// a method that adds or drops a formal never has the signature of the
/// one it overrides.
pub proof fn lemma_same_signature_same_arity(a: Signature, b: Signature)
    requires
        same_signature(a, b),
    ensures
        a.0.len() == b.0.len(),
{
}

/// Two signatures whose formals differ in type at some position are not
/// the same, nor are two with different return types.
pub proof fn lemma_different_formal_type(a: Signature, b: Signature, i: int)
    requires
        0 <= i < a.0.len(),
        0 <= i < b.0.len(),
        a.0[i].ty != b.0[i].ty || a.1 != b.1,
    ensures
        !same_signature(a, b),
{
}

/// Having the same signature is an equivalence: reflexive, symmetric and
/// transitive, whatever the formals are named.
pub proof fn lemma_same_signature_equivalence(a: Signature, b: Signature, c: Signature)
    ensures
        same_signature(a, a),
        same_signature(a, b) ==> same_signature(b, a),
        same_signature(a, b) && same_signature(b, c) ==> same_signature(a, c),
{
    if same_signature(a, b) && same_signature(b, c) {
        assert forall|i: int| 0 <= i < a.0.len() implies (#[trigger] a.0[i]).ty == c.0[i].ty by {
            assert(a.0[i].ty == b.0[i].ty);
            assert(b.0[i].ty == c.0[i].ty);
        }
    }
    if same_signature(a, b) {
        assert forall|i: int| 0 <= i < b.0.len() implies (#[trigger] b.0[i]).ty == a.0[i].ty by {
            assert(a.0[i].ty == b.0[i].ty);
        }
    }
}

impl MethodInfo {
    pub fn new(formal_info: Vec<FormalInfo>, return_type: ReturnType) -> (m: Self)
        ensures
            m@ == (formal_info@, return_type),
    {
        Self { formal_info, return_type }
    }

    pub fn formals(&self) -> (f: &Vec<FormalInfo>)
        ensures
            f@ == self@.0,
    {
        &self.formal_info
    }

    pub fn rt(&self) -> (r: ReturnType)
        ensures
            r == self@.1,
    {
        self.return_type
    }

    /// Whether `other` has the same return type and the same formal types.
    pub fn has_same_signature(&self, other: &MethodInfo) -> (r: bool)
        ensures
            r == same_signature(self@, other@),
    {
        if self.return_type != other.return_type {
            return false;
        }
        if self.formal_info.len() != other.formal_info.len() {
            return false;
        }
        let mut i: usize = 0;
        while i < self.formal_info.len()
            invariant
                i <= self.formal_info@.len(),
                self.formal_info@.len() == other.formal_info@.len(),
                forall|j: int| 0 <= j < i ==> (#[trigger] self@.0[j]).ty == other@.0[j].ty,
            decreases self.formal_info@.len() - i,
        {
            if self.formal_info[i].ty != other.formal_info[i].ty {
                return false;
            }
            i = i + 1;
        }
        true
    }
}

/// The formals that a list of parameters declares.
pub open spec fn formals_of(params: Seq<Formal>) -> Seq<FormalInfo> {
    params.map_values(|p: Formal| FormalInfo { name: p.name, ty: p.type_dec })
}

/// The signature that a method feature declares.
pub open spec fn signature_of(params: Seq<Formal>, type_dec: ReturnType) -> Signature {
    (formals_of(params), type_dec)
}

/// A table entry: (class, method) and the signature.
pub type MethodEntry = ((usize, usize), Signature);

pub open spec fn method_keys(s: Seq<MethodEntry>) -> Seq<(usize, usize)> {
    s.map_values(|e: MethodEntry| e.0)
}

pub open spec fn method_map(s: Seq<MethodEntry>) -> Map<(usize, usize), Signature>
    decreases s.len(),
{
    if s.len() == 0 {
        Map::empty()
    } else {
        method_map(s.drop_last()).insert(s.last().0, s.last().1)
    }
}

/// The entries of the methods `ms` of class `c`, in order.
pub open spec fn class_entries(c: usize, ms: Seq<(usize, Signature)>) -> Seq<MethodEntry> {
    ms.map_values(|m: (usize, Signature)| ((c, m.0), m.1))
}

/// The entries of the methods of the first `n` builtin classes.
pub open spec fn builtin_entries_upto(n: nat) -> Seq<MethodEntry>
    decreases n,
{
    if n == 0 {
        Seq::empty()
    } else {
        builtin_entries_upto((n - 1) as nat) + class_entries(builtin_hierarchy()[n - 1].0, builtin_signatures()[n - 1])
    }
}

/// The entries of the builtin methods: those of Object, then IO, Int,
/// String and Bool, each class's in the order they are described.
pub open spec fn builtin_method_entries() -> Seq<MethodEntry> {
    builtin_entries_upto(builtin_hierarchy().len())
}

/// Entries and errors after the first `n` features of class `c`.
pub open spec fn scan_features(
    es: Seq<MethodEntry>,
    errs: Seq<SemanticError>,
    c: usize,
    fs: Seq<Feature>,
) -> (Seq<MethodEntry>, Seq<SemanticError>)
    decreases fs.len(),
{
    if fs.len() == 0 {
        (es, errs)
    } else {
        let (es1, errs1) = scan_features(es, errs, c, fs.drop_last());
        match fs.last() {
            Feature::Method { name, params, type_dec, .. } => {
                if method_keys(es1).contains((c, name)) {
                    (es1, errs1.push(plain_error(SemanticErrorKind::RedefinedMethod { class: c, method: name })))
                } else {
                    (es1.push(((c, name), signature_of(params@, type_dec))), errs1)
                }
            },
            _ => (es1, errs1),
        }
    }
}

/// Entries and errors after the methods of all the classes: the builtin
/// methods come first, then each method enters under (class, name), and a
/// second method with the same name in the same class is an error.
pub open spec fn scan_methods(classes: Seq<Class>) -> (Seq<MethodEntry>, Seq<SemanticError>)
    decreases classes.len(),
{
    if classes.len() == 0 {
        (builtin_method_entries(), Seq::empty())
    } else {
        let (es, errs) = scan_methods(classes.drop_last());
        match classes.last() {
            Class::Valid { name, features, .. } => scan_features(es, errs, name, features@),
            Class::Invalid => (es, errs),
        }
    }
}

/// The method table of a program.
pub open spec fn methods_of(classes: Seq<Class>) -> Map<(usize, usize), Signature> {
    method_map(scan_methods(classes).0)
}

/// `class` is the `k`-th class above `c` and the first on the chain from
/// `c` that defines `method`.
pub open spec fn defined_first_at(
    mt: Map<(usize, usize), Signature>,
    tm: Map<usize, Option<usize>>,
    c: usize,
    method: usize,
    k: nat,
) -> bool {
    &&& ancestor_at(tm, c, k) is Some
    &&& mt.contains_key((ancestor_at(tm, c, k).unwrap(), method))
    &&& forall|j: nat|
        j < k ==> match #[trigger] ancestor_at(tm, c, j) {
            Some(x) => !mt.contains_key((x, method)),
            None => true,
        }
}

/// The signature of `method` as class `c` sees it: the one defined by
/// the first class on the chain from `c` upwards that defines it.
pub open spec fn lookup_method(
    mt: Map<(usize, usize), Signature>,
    tm: Map<usize, Option<usize>>,
    c: usize,
    method: usize,
) -> Option<Signature> {
    if exists|k: nat| defined_first_at(mt, tm, c, method, k) {
        let k = choose|k: nat| defined_first_at(mt, tm, c, method, k);
        Some(mt[(ancestor_at(tm, c, k).unwrap(), method)])
    } else {
        None
    }
}

pub proof fn lemma_defined_first_unique(
    mt: Map<(usize, usize), Signature>,
    tm: Map<usize, Option<usize>>,
    c: usize,
    method: usize,
    k1: nat,
    k2: nat,
)
    requires
        defined_first_at(mt, tm, c, method, k1),
        defined_first_at(mt, tm, c, method, k2),
    ensures
        k1 == k2,
{
    if k1 < k2 {
        assert(ancestor_at(tm, c, k1) is Some);
    } else if k2 < k1 {
        assert(ancestor_at(tm, c, k2) is Some);
    }
}

/// For each class, the signatures of the methods it defines.
#[derive(Debug)]
pub struct MethodTable {
    inner: Vec<((usize, usize), MethodInfo)>,
}

impl View for MethodTable {
    type V = Map<(usize, usize), Signature>;

    closed spec fn view(&self) -> Map<(usize, usize), Signature> {
        method_map(self.entries())
    }
}

proof fn lemma_method_map(s: Seq<MethodEntry>)
    ensures
        method_map(s).dom() == method_keys(s).to_set(),
        forall|i: int|
            0 <= i < s.len() && method_keys(s).no_duplicates() ==> #[trigger] method_map(s)[s[i].0]
                == s[i].1,
    decreases s.len(),
{
    if s.len() > 0 {
        lemma_method_map(s.drop_last());
        let ks = method_keys(s);
        let kd = method_keys(s.drop_last());
        assert(ks =~= kd.push(s.last().0));
        assert(ks.to_set() =~= kd.to_set().insert(s.last().0)) by {
            assert forall|x: (usize, usize)| ks.contains(x) implies #[trigger] kd.to_set().insert(s.last().0).contains(x) by {
                let j = choose|j: int| 0 <= j < ks.len() && ks[j] == x;
                if j < ks.len() - 1 {
                    assert(kd[j] == x);
                }
            }
            assert forall|x: (usize, usize)| #[trigger] kd.to_set().insert(s.last().0).contains(x) implies ks.contains(x) by {
                if x == s.last().0 {
                    assert(ks[ks.len() - 1] == x);
                } else {
                    let j = choose|j: int| 0 <= j < kd.len() && kd[j] == x;
                    assert(ks[j] == x);
                }
            }
        }
        assert forall|i: int|
            0 <= i < s.len() && method_keys(s).no_duplicates() implies #[trigger] method_map(s)[s[i].0]
                == s[i].1 by {
            if i < s.len() - 1 {
                assert(ks[i] != ks[s.len() - 1]);
                assert(kd =~= ks.drop_last());
                assert(kd.no_duplicates());
                assert(s.drop_last()[i] == s[i]);
            }
        }
    } else {
        assert(method_keys(s).to_set() =~= Set::empty());
    }
}

/// No two builtin classes share an id, and no builtin class has two
/// methods of one name.
proof fn lemma_builtin_keys_distinct()
    ensures
        forall|a: int, b: int|
            0 <= a < b < builtin_hierarchy().len() ==> #[trigger] builtin_hierarchy()[a].0
                != #[trigger] builtin_hierarchy()[b].0,
        forall|i: int, a: int, b: int|
            0 <= i < builtin_hierarchy().len() && 0 <= a < b < builtin_signatures()[i].len()
                ==> #[trigger] builtin_signatures()[i][a].0 != #[trigger] builtin_signatures()[i][b].0,
{
    let h = builtin_hierarchy();
    let s = builtin_signatures();
    assert(h.len() == 5);
    assert(s.len() == 5);
    assert(s[0].len() == 3 && s[1].len() == 4 && s[2].len() == 0 && s[3].len() == 3 && s[4].len() == 0);
    assert(s[0][0].0 == 5 && s[0][1].0 == 6 && s[0][2].0 == 7);
    assert(s[1][0].0 == 8 && s[1][1].0 == 9 && s[1][2].0 == 10 && s[1][3].0 == 11);
    assert(s[3][0].0 == 12 && s[3][1].0 == 13 && s[3][2].0 == 14);
    assert(h[0].0 == 0 && h[1].0 == 4 && h[2].0 == 1 && h[3].0 == 3 && h[4].0 == 2);
}

/// The entries of the first `n` builtin classes belong to those classes.
proof fn lemma_builtin_entries_classes(n: nat)
    requires
        n <= builtin_hierarchy().len(),
        forall|a: int, b: int|
            0 <= a < b < builtin_hierarchy().len() ==> #[trigger] builtin_hierarchy()[a].0
                != #[trigger] builtin_hierarchy()[b].0,
    ensures
        forall|k: int, m: int|
            0 <= k < builtin_entries_upto(n).len() && n <= m < builtin_hierarchy().len()
                ==> #[trigger] builtin_entries_upto(n)[k].0.0 != #[trigger] builtin_hierarchy()[m].0,
    decreases n,
{
    if n > 0 {
        lemma_builtin_entries_classes((n - 1) as nat);
        let prev = builtin_entries_upto((n - 1) as nat);
        let c = builtin_hierarchy()[n - 1].0;
        let ce = class_entries(c, builtin_signatures()[n - 1]);
        assert forall|k: int, m: int|
            0 <= k < builtin_entries_upto(n).len() && n <= m < builtin_hierarchy().len()
                implies #[trigger] builtin_entries_upto(n)[k].0.0 != #[trigger] builtin_hierarchy()[m].0 by {
            if k < prev.len() {
                assert(builtin_entries_upto(n)[k] == prev[k]);
            } else {
                assert(builtin_entries_upto(n)[k] == ce[k - prev.len()]);
                assert(builtin_hierarchy()[n - 1].0 != builtin_hierarchy()[m].0);
            }
        }
    }
}

impl MethodTable {
    /// The entries as values, in the order they entered.
    pub closed spec fn entries(&self) -> Seq<MethodEntry> {
        self.inner@.map_values(|e: ((usize, usize), MethodInfo)| (e.0, e.1@))
    }

    /// No (class, method) pair has two entries.
    pub closed spec fn wf(&self) -> bool {
        method_keys(self.entries()).no_duplicates()
    }

    proof fn lemma_facts(&self)
        ensures
            self@.dom() == method_keys(self.entries()).to_set(),
            self.entries().len() == self.inner@.len(),
            forall|i: int| 0 <= i < self.inner@.len() ==> #[trigger] self.entries()[i] == (self.inner@[i].0, self.inner@[i].1@),
            self.wf() ==> forall|i: int| 0 <= i < self.inner@.len() ==> #[trigger] self@[self.inner@[i].0] == self.inner@[i].1@,
    {
        lemma_method_map(self.entries());
        assert forall|i: int| 0 <= i < self.inner@.len() implies #[trigger] self.entries()[i] == (self.inner@[i].0, self.inner@[i].1@) by {}
        if self.wf() {
            assert forall|i: int| 0 <= i < self.inner@.len() implies #[trigger] self@[self.inner@[i].0] == self.inner@[i].1@ by {
                assert(self@[self.entries()[i].0] == self.entries()[i].1);
            }
        }
    }

    fn find(&self, class_id: usize, method_id: usize) -> (r: Option<usize>)
        ensures
            match r {
                Some(i) => i < self.inner@.len() && self.inner@[i as int].0 == (class_id, method_id)
                    && self@.contains_key((class_id, method_id)),
                None => !self@.contains_key((class_id, method_id)),
            },
    {
        proof {
            self.lemma_facts();
        }
        let mut i: usize = 0;
        while i < self.inner.len()
            invariant
                i <= self.inner@.len(),
                self@.dom() == method_keys(self.entries()).to_set(),
                self.entries().len() == self.inner@.len(),
                forall|k: int| 0 <= k < self.inner@.len() ==> #[trigger] self.entries()[k] == (self.inner@[k].0, self.inner@[k].1@),
                forall|j: int| 0 <= j < i ==> self.inner@[j].0 != (class_id, method_id),
            decreases self.inner@.len() - i,
        {
            let (c, m) = self.inner[i].0;
            if c == class_id && m == method_id {
                proof {
                    assert(self.entries()[i as int].0 == (class_id, method_id));
                    assert(method_keys(self.entries())[i as int] == (class_id, method_id));
                    assert(method_keys(self.entries()).to_set().contains((class_id, method_id)));
                }
                return Some(i);
            }
            i = i + 1;
        }
        proof {
            if self@.contains_key((class_id, method_id)) {
                let ks = method_keys(self.entries());
                let k = choose|k: int| 0 <= k < ks.len() && ks[k] == (class_id, method_id);
                assert(self.entries()[k].0 == self.inner@[k].0);
            }
        }
        None
    }

    /// Enters the signature of `method_id` in `class_id`; a class that
    /// already has a method of that name is an error, and the table is
    /// left as it was.
    fn insert(&mut self, class_id: usize, method_id: usize, method_info: MethodInfo) -> (r: Result<(), SemanticError>)
        requires
            old(self).wf(),
        ensures
            final(self).wf(),
            old(self)@.contains_key((class_id, method_id)) ==> {
                &&& r == Err::<(), SemanticError>(plain_error(SemanticErrorKind::RedefinedMethod { class: class_id, method: method_id }))
                &&& final(self).entries() == old(self).entries()
            },
            !old(self)@.contains_key((class_id, method_id)) ==> {
                &&& r is Ok
                &&& final(self).entries() == old(self).entries().push(((class_id, method_id), method_info@))
            },
    {
        proof {
            self.lemma_facts();
        }
        if self.find(class_id, method_id).is_some() {
            return Err(SemanticError { kind: SemanticErrorKind::RedefinedMethod { class: class_id, method: method_id }, span: None });
        }
        let ghost info = method_info@;
        self.inner.push(((class_id, method_id), method_info));
        proof {
            assert(self.entries() =~= old(self).entries().push(((class_id, method_id), info)));
            assert(method_keys(self.entries()) =~= method_keys(old(self).entries()).push((class_id, method_id)));
            assert(!method_keys(old(self).entries()).contains((class_id, method_id)));
        }
        Ok(())
    }

    /// A table that holds the builtin methods and nothing else.
    fn with_builtins() -> (t: Self)
        ensures
            t.wf(),
            t.entries() == builtin_method_entries(),
    {
        let mut table = Self { inner: Vec::new() };
        let classes = builtin_classes();
        proof {
            assert(table.entries() =~= builtin_entries_upto(0));
            lemma_builtin_keys_distinct();
        }
        let mut ci: usize = 0;
        while ci < classes.len()
            invariant
                table.wf(),
                ci <= classes@.len(),
                classes@.len() == builtin_hierarchy().len(),
                forall|i: int|
                    0 <= i < classes@.len() ==> (#[trigger] classes@[i]).id == builtin_hierarchy()[i].0
                        && method_views(classes@[i].methods@) == builtin_signatures()[i],
                table.entries() == builtin_entries_upto(ci as nat),
                forall|a: int, b: int|
                    0 <= a < b < builtin_hierarchy().len() ==> #[trigger] builtin_hierarchy()[a].0
                        != #[trigger] builtin_hierarchy()[b].0,
                forall|i: int, a: int, b: int|
                    0 <= i < builtin_hierarchy().len() && 0 <= a < b < builtin_signatures()[i].len()
                        ==> #[trigger] builtin_signatures()[i][a].0 != #[trigger] builtin_signatures()[i][b].0,
            decreases classes@.len() - ci,
        {
            let class = &classes[ci];
            let class_id = class.id;
            let ghost base = table.entries();
            let ghost sigs = builtin_signatures()[ci as int];
            proof {
                lemma_builtin_entries_classes(ci as nat);
                assert(sigs.take(0) =~= Seq::<(usize, Signature)>::empty());
                assert(base + class_entries(class_id, sigs.take(0)) =~= base);
            }
            let mut mi: usize = 0;
            while mi < class.methods.len()
                invariant
                    table.wf(),
                    mi <= class.methods@.len(),
                    class_id == builtin_hierarchy()[ci as int].0,
                    ci < builtin_hierarchy().len(),
                    method_views(class.methods@) == sigs,
                    sigs == builtin_signatures()[ci as int],
                    base == builtin_entries_upto(ci as nat),
                    table.entries() == base + class_entries(class_id, sigs.take(mi as int)),
                    forall|k: int| 0 <= k < base.len() ==> (#[trigger] base[k]).0.0 != class_id,
                    forall|a: int, b: int|
                        0 <= a < b < sigs.len() ==> #[trigger] sigs[a].0 != #[trigger] sigs[b].0,
                decreases class.methods@.len() - mi,
            {
                let method = &class.methods[mi];
                let mut formal_info: Vec<FormalInfo> = Vec::new();
                let mut pi: usize = 0;
                while pi < method.params.len()
                    invariant
                        pi <= method.params@.len(),
                        formal_info@ == method.params@.take(pi as int).map_values(
                            |p: (usize, usize)| FormalInfo { name: p.0, ty: p.1 },
                        ),
                    decreases method.params@.len() - pi,
                {
                    let (name, ty) = method.params[pi];
                    formal_info.push(FormalInfo::new(name, ty));
                    proof {
                        assert(method.params@.take(pi + 1).map_values(|p: (usize, usize)| FormalInfo { name: p.0, ty: p.1 })
                            =~= formal_info@);
                    }
                    pi = pi + 1;
                }
                proof {
                    assert(method.params@.take(pi as int) =~= method.params@);
                    assert(method_views(class.methods@)[mi as int] == method@);
                }
                let method_info = MethodInfo { formal_info, return_type: method.rt };
                proof {
                    table.lemma_facts();
                    let es = table.entries();
                    let key = (class_id, method.name);
                    if method_keys(es).contains(key) {
                        let k = choose|k: int| 0 <= k < method_keys(es).len() && method_keys(es)[k] == key;
                        if k < base.len() {
                            assert(es[k] == base[k]);
                        } else {
                            assert(es[k] == class_entries(class_id, sigs.take(mi as int))[k - base.len()]);
                            assert(sigs[k - base.len()].0 != sigs[mi as int].0);
                        }
                    }
                }
                let r = table.insert(class_id, method.name, method_info);
                proof {
                    assert(r is Ok);
                    assert(base + class_entries(class_id, sigs.take(mi + 1)) =~= (base + class_entries(
                        class_id,
                        sigs.take(mi as int),
                    )).push(((class_id, sigs[mi as int].0), sigs[mi as int].1)));
                }
                mi = mi + 1;
            }
            proof {
                assert(sigs.take(mi as int) =~= sigs);
                assert(builtin_entries_upto((ci + 1) as nat) == builtin_entries_upto(ci as nat) + class_entries(
                    builtin_hierarchy()[ci as int].0,
                    builtin_signatures()[ci as int],
                ));
            }
            ci = ci + 1;
        }
        table
    }

    /// The table of the methods that the valid classes of `program`
    /// define, or one error for each method defined twice in a class.
    pub fn build(program: &Program) -> (r: Result<Self, Vec<SemanticError>>)
        ensures
            match r {
                Ok(t) => t.wf() && t@ == methods_of(program.classes@) && scan_methods(program.classes@).1.len() == 0,
                Err(errs) => errs@ == scan_methods(program.classes@).1 && errs@.len() > 0,
            },
    {
        let mut table = Self::with_builtins();
        let mut errors: Vec<SemanticError> = Vec::new();
        proof {
            assert(program.classes@.take(0) =~= Seq::<Class>::empty());
        }
        let mut ci: usize = 0;
        while ci < program.classes.len()
            invariant
                table.wf(),
                ci <= program.classes@.len(),
                (table.entries(), errors@) == scan_methods(program.classes@.take(ci as int)),
            decreases program.classes@.len() - ci,
        {
            proof {
                assert(program.classes@.take(ci + 1).drop_last() =~= program.classes@.take(ci as int));
                assert(program.classes@.take(ci + 1).last() == program.classes@[ci as int]);
            }
            match &program.classes[ci] {
                Class::Invalid => {},
                Class::Valid { name, features, .. } => {
                    let defining_class = *name;
                    let ghost es0 = table.entries();
                    let ghost errs0 = errors@;
                    let mut fi: usize = 0;
                    proof {
                        assert(features@.take(0) =~= Seq::<Feature>::empty());
                    }
                    while fi < features.len()
                        invariant
                            table.wf(),
                            fi <= features@.len(),
                            (table.entries(), errors@) == scan_features(es0, errs0, defining_class, features@.take(fi as int)),
                        decreases features@.len() - fi,
                    {
                        proof {
                            assert(features@.take(fi + 1).drop_last() =~= features@.take(fi as int));
                            assert(features@.take(fi + 1).last() == features@[fi as int]);
                            table.lemma_facts();
                        }
                        match &features[fi] {
                            Feature::Method { name, params, type_dec, .. } => {
                                let mut formal_info: Vec<FormalInfo> = Vec::new();
                                let mut pi: usize = 0;
                                while pi < params.len()
                                    invariant
                                        pi <= params@.len(),
                                        formal_info@ == formals_of(params@.take(pi as int)),
                                    decreases params@.len() - pi,
                                {
                                    formal_info.push(FormalInfo::new(params[pi].name, params[pi].type_dec));
                                    proof {
                                        assert(formals_of(params@.take(pi + 1)) =~= formals_of(params@.take(pi as int)).push(
                                            FormalInfo { name: params@[pi as int].name, ty: params@[pi as int].type_dec },
                                        ));
                                    }
                                    pi = pi + 1;
                                }
                                proof {
                                    assert(params@.take(pi as int) =~= params@);
                                }
                                let method_info = MethodInfo { formal_info, return_type: *type_dec };
                                proof {
                                    if method_keys(table.entries()).contains((defining_class, *name)) {
                                        assert(table@.contains_key((defining_class, *name)));
                                    }
                                }
                                match table.insert(defining_class, *name, method_info) {
                                    Ok(()) => {},
                                    Err(error) => {
                                        errors.push(error);
                                    },
                                }
                            },
                            _ => {},
                        }
                        fi = fi + 1;
                    }
                    proof {
                        assert(features@.take(fi as int) =~= features@);
                    }
                },
            }
            ci = ci + 1;
        }
        proof {
            assert(program.classes@.take(ci as int) =~= program.classes@);
        }
        if errors.len() == 0 {
            Ok(table)
        } else {
            Err(errors)
        }
    }

    /// The signature that `class_id` itself defines for `method_id`.
    pub fn get(&self, class_id: usize, method_id: usize) -> (r: Option<&MethodInfo>)
        requires
            self.wf(),
        ensures
            match r {
                Some(info) => self@.contains_key((class_id, method_id)) && info@ == self@[(class_id, method_id)],
                None => !self@.contains_key((class_id, method_id)),
            },
    {
        proof {
            self.lemma_facts();
        }
        match self.find(class_id, method_id) {
            Some(i) => {
                proof {
                    assert(self.entries()[i as int] == (self.inner@[i as int].0, self.inner@[i as int].1@));
                    assert(method_keys(self.entries())[i as int] == (class_id, method_id));
                    assert(method_keys(self.entries()).to_set().contains((class_id, method_id)));
                }
                Some(&self.inner[i].1)
            },
            None => None,
        }
    }

    /// Whether `class_id` itself defines `method_id`.
    pub fn contains(&self, class_id: usize, method_id: usize) -> (r: bool)
        requires
            self.wf(),
        ensures
            r == self@.contains_key((class_id, method_id)),
    {
        self.get(class_id, method_id).is_some()
    }

    /// The signature of `method_id` as `class_id` sees it, searching the
    /// class and then its ancestors.
    pub fn lookup(&self, inheritance: &InheritanceTree, class_id: usize, method_id: usize) -> (r: Option<&MethodInfo>)
        requires
            self.wf(),
            inheritance.wf(),
            acyclic(inheritance@),
        ensures
            match r {
                Some(info) => lookup_method(self@, inheritance@, class_id, method_id) == Some(info@),
                None => lookup_method(self@, inheritance@, class_id, method_id) is None,
            },
    {
        let ghost tm = inheritance@;
        let ghost mt = self@;
        proof {
            inheritance.lemma_dom_finite();
            lemma_chain_ends(tm, class_id);
        }
        let ghost end = tm.dom().len() + 1;
        let mut current = Some(class_id);
        let ghost mut k: nat = 0;
        proof {
            assert(ancestor_at(tm, class_id, 0) == Some(class_id));
        }
        while current.is_some()
            invariant
                self.wf(),
                inheritance.wf(),
                tm == inheritance@,
                mt == self@,
                current == ancestor_at(tm, class_id, k),
                ancestor_at(tm, class_id, end) is None,
                k <= end,
                forall|j: nat|
                    j < k ==> match #[trigger] ancestor_at(tm, class_id, j) {
                        Some(x) => !mt.contains_key((x, method_id)),
                        None => true,
                    },
            decreases end - k,
        {
            let c = current.unwrap();
            if let Some(method) = self.get(c, method_id) {
                proof {
                    assert(defined_first_at(mt, tm, class_id, method_id, k));
                    let k2 = choose|k2: nat| defined_first_at(mt, tm, class_id, method_id, k2);
                    lemma_defined_first_unique(mt, tm, class_id, method_id, k, k2);
                }
                return Some(method);
            }
            current = inheritance.parent(c);
            proof {
                assert(ancestor_at(tm, class_id, k + 1) == parent_of(tm, c));
                k = k + 1;
                if end < k {
                    lemma_ancestor_none_stays(tm, class_id, end, k);
                }
            }
        }
        proof {
            if exists|k2: nat| defined_first_at(mt, tm, class_id, method_id, k2) {
                let k2 = choose|k2: nat| defined_first_at(mt, tm, class_id, method_id, k2);
                if k2 >= k {
                    lemma_ancestor_none_stays(tm, class_id, k, k2);
                }
            }
        }
        None
    }
}

} // verus!
