use vstd::prelude::*;

verus! {

/// Interns the identifiers and string constants of a program. Every
/// distinct string gets the next free number, starting with the builtin
/// names, whose numbers are fixed in `semantic_analysis::builtins`.
#[derive(Debug)]
pub struct StringTable {
    names: Vec<String>,
}

/// No string is interned twice.
pub open spec fn distinct_names(s: Seq<Seq<char>>) -> bool {
    forall|i: int, j: int| 0 <= i < j < s.len() ==> s[i] != s[j]
}

/// The table after interning `s`: unchanged when `s` is already there,
/// otherwise `s` is appended and gets the next number.
pub open spec fn interned(t: Seq<Seq<char>>, s: Seq<char>) -> Seq<Seq<char>> {
    if t.contains(s) {
        t
    } else {
        t.push(s)
    }
}

/// The table after interning each string of `ss`, in order.
pub open spec fn interned_all(t: Seq<Seq<char>>, ss: Seq<Seq<char>>) -> Seq<Seq<char>>
    decreases ss.len(),
{
    if ss.len() == 0 {
        t
    } else {
        interned(interned_all(t, ss.drop_last()), ss.last())
    }
}

/// The names the table holds before any program is read, in the order
/// of their numbers.
pub open spec fn builtin_names() -> Seq<Seq<char>> {
    seq![
        "Object"@, "Int"@, "Bool"@, "String"@, "IO"@,
        "abort"@, "type_name"@, "copy"@, "out_string"@, "out_int"@, "in_string"@, "in_int"@,
        "length"@, "concat"@, "substr"@,
        "x"@, "i"@, "l"@, "s"@,
    ]
}

proof fn lemma_builtin_names_distinct()
    ensures
        distinct_names(builtin_names()),
{
    reveal_strlit("Object");
    reveal_strlit("Int");
    reveal_strlit("Bool");
    reveal_strlit("String");
    reveal_strlit("IO");
    reveal_strlit("abort");
    reveal_strlit("type_name");
    reveal_strlit("copy");
    reveal_strlit("out_string");
    reveal_strlit("out_int");
    reveal_strlit("in_string");
    reveal_strlit("in_int");
    reveal_strlit("length");
    reveal_strlit("concat");
    reveal_strlit("substr");
    reveal_strlit("x");
    reveal_strlit("i");
    reveal_strlit("l");
    reveal_strlit("s");
    let b = builtin_names();
    assert forall|i: int, j: int| 0 <= i < j < b.len() implies b[i] != b[j] by {
        assert(b[i].len() != b[j].len() || b[i][0] != b[j][0]);
    }
}

impl View for StringTable {
    type V = Seq<Seq<char>>;

    closed spec fn view(&self) -> Seq<Seq<char>> {
        self.names@.map_values(|s: String| s@)
    }
}

impl StringTable {
    /// The table holds no string twice.
    pub closed spec fn wf(&self) -> bool {
        distinct_names(self@)
    }

    /// The number that the table gives to `s`, if it holds it.
    pub open spec fn id_of(&self, s: Seq<char>) -> Option<usize> {
        if self@.contains(s) {
            Some(self@.index_of(s) as usize)
        } else {
            None
        }
    }

    fn push_literal(names: &mut Vec<String>, lit: &str)
        ensures
            final(names)@.map_values(|s: String| s@) =~= old(names)@.map_values(|s: String| s@).push(lit@),
    {
        names.push(String::from_str(lit));
    }

    /// A table that holds the builtin class, method and parameter names,
    /// numbered in the order of `builtin_names()`.
    pub fn new() -> (t: Self)
        ensures
            t.wf(),
            t@ == builtin_names(),
    {
        let mut names: Vec<String> = Vec::new();
        Self::push_literal(&mut names, "Object");
        Self::push_literal(&mut names, "Int");
        Self::push_literal(&mut names, "Bool");
        Self::push_literal(&mut names, "String");
        Self::push_literal(&mut names, "IO");
        Self::push_literal(&mut names, "abort");
        Self::push_literal(&mut names, "type_name");
        Self::push_literal(&mut names, "copy");
        Self::push_literal(&mut names, "out_string");
        Self::push_literal(&mut names, "out_int");
        Self::push_literal(&mut names, "in_string");
        Self::push_literal(&mut names, "in_int");
        Self::push_literal(&mut names, "length");
        Self::push_literal(&mut names, "concat");
        Self::push_literal(&mut names, "substr");
        Self::push_literal(&mut names, "x");
        Self::push_literal(&mut names, "i");
        Self::push_literal(&mut names, "l");
        Self::push_literal(&mut names, "s");
        let t = StringTable { names };
        proof {
            reveal_strlit("Object");
            reveal_strlit("Int");
            reveal_strlit("Bool");
            reveal_strlit("String");
            reveal_strlit("IO");
            reveal_strlit("abort");
            reveal_strlit("type_name");
            reveal_strlit("copy");
            reveal_strlit("out_string");
            reveal_strlit("out_int");
            reveal_strlit("in_string");
            reveal_strlit("in_int");
            reveal_strlit("length");
            reveal_strlit("concat");
            reveal_strlit("substr");
            reveal_strlit("x");
            reveal_strlit("i");
            reveal_strlit("l");
            reveal_strlit("s");
            assert(t@ =~= builtin_names());
            lemma_builtin_names_distinct();
        }
        t
    }

    /// Position of `s` in the table, if present.
    fn find(&self, s: &String) -> (r: Option<usize>)
        ensures
            match r {
                Some(i) => i < self@.len() && self@[i as int] == s@
                    && forall|j: int| 0 <= j < i ==> self@[j] != s@,
                None => !self@.contains(s@),
            },
    {
        let mut i: usize = 0;
        while i < self.names.len()
            invariant
                i <= self.names@.len(),
                self@.len() == self.names@.len(),
                self@ == self.names@.map_values(|x: String| x@),
                forall|j: int| 0 <= j < i ==> self@[j] != s@,
            decreases self.names@.len() - i,
        {
            if self.names[i] == *s {
                return Some(i);
            }
            i = i + 1;
        }
        proof {
            if self@.contains(s@) {
                let k = choose|k: int| 0 <= k < self@.len() && self@[k] == s@;
                assert(self@[k] == s@);
            }
        }
        None
    }

    /// Interns `string` and returns its number: the number it already
    /// had, or the next free one.
    pub fn insert(&mut self, string: String) -> (id: usize)
        requires
            old(self).wf(),
        ensures
            final(self).wf(),
            final(self)@ == interned(old(self)@, string@),
            id < final(self)@.len(),
            final(self)@[id as int] == string@,
            old(self)@.contains(string@) ==> id < old(self)@.len(),
            !old(self)@.contains(string@) ==> id == old(self)@.len(),
    {
        match self.find(&string) {
            Some(i) => i,
            None => {
                let id = self.names.len();
                let ghost s = string@;
                self.names.push(string);
                proof {
                    assert(self@ =~= old(self)@.push(s));
                }
                id
            },
        }
    }

    /// The number of `string`, if the table holds it.
    pub fn lookup(&self, string: &str) -> (r: Option<usize>)
        requires
            self.wf(),
        ensures
            r == self.id_of(string@),
    {
        let owned = string.to_owned();
        let r = self.find(&owned);
        proof {
            if let Some(i) = r {
                assert(self@.contains(string@));
                let k = self@.index_of(string@);
                assert(self@[k] == string@);
                assert(k as usize == i);
            }
        }
        r
    }

    /// The string that has number `id`, if any.
    pub fn string_from_id(&self, id: usize) -> (r: Option<&String>)
        ensures
            match r {
                Some(s) => id < self@.len() && s@ == self@[id as int],
                None => id >= self@.len(),
            },
    {
        if id < self.names.len() {
            Some(&self.names[id])
        } else {
            None
        }
    }

    /// Number of strings interned.
    pub fn len(&self) -> (n: usize)
        ensures
            n == self@.len(),
    {
        self.names.len()
    }
}


/// Interning a string a second time changes nothing.
pub proof fn lemma_interned_idempotent(t: Seq<Seq<char>>, s: Seq<char>)
    ensures
        interned(interned(t, s), s) == interned(t, s),
{
    if !t.contains(s) {
        assert(t.push(s)[t.len() as int] == s);
    }
}

/// In a table that holds no string twice, the number at which a string
/// stands is the number a lookup gives for it: a lookup after an insert
/// gives what the insert returned.
pub proof fn lemma_lookup_finds_number(t: StringTable, s: Seq<char>, id: usize)
    requires
        t.wf(),
        id < t@.len(),
        t@[id as int] == s,
    ensures
        t.id_of(s) == Some(id),
{
    assert(t@.contains(s));
    let k = t@.index_of(s);
    assert(t@[k] == s);
}

/// Interning keeps every number already given and gives a string
/// already there the number it had.
pub proof fn lemma_interned_keeps_numbers(t: Seq<Seq<char>>, s: Seq<char>)
    ensures
        interned(t, s).len() >= t.len(),
        forall|k: int| 0 <= k < t.len() ==> #[trigger] interned(t, s)[k] == t[k],
        interned(t, s).contains(s),
{
    if !t.contains(s) {
        assert(t.push(s)[t.len() as int] == s);
    }
}

} // verus!
