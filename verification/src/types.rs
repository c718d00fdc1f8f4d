//! The context that injectors read and that fills the remaining slots, and
//! the injectors themselves.

use vstd::prelude::*;
use crate::text::views;

verus! {

/// A value of the context: the shapes of a JSON value. A number is held as
/// the text that serde_json writes for it (e.g. `42`, `-7`, `1.5`).
#[derive(Debug, PartialEq)]
pub enum ContextValue {
    Null,
    Bool(bool),
    Number(String),
    String(String),
    Array(Vec<ContextValue>),
    Object(Vec<(String, ContextValue)>),
}

/// The text a value puts into a slot: strings and numbers have one, the
/// other values have none.
pub open spec fn value_text(v: ContextValue) -> Option<Seq<char>> {
    match v {
        ContextValue::String(s) => Some(s@),
        ContextValue::Number(n) => Some(n@),
        _ => None,
    }
}

/// The text the context holds for `key`, if any.
pub open spec fn context_text(ctx: Map<Seq<char>, ContextValue>, key: Seq<char>) -> Option<
    Seq<char>,
> {
    if ctx.contains_key(key) {
        value_text(ctx[key])
    } else {
        None
    }
}

/// Strings and numbers put their text into a slot; the other values, and
/// names the context does not hold, put none.
pub proof fn law_context_text_of_values(
    ctx: Map<Seq<char>, ContextValue>,
    k: Seq<char>,
    s: String,
    v: ContextValue,
)
    ensures
        context_text(ctx.insert(k, ContextValue::String(s)), k) == Some(s@),
        context_text(ctx.insert(k, ContextValue::Number(s)), k) == Some(s@),
        !(v is String) && !(v is Number) ==> context_text(ctx.insert(k, v), k) is None,
        !ctx.contains_key(k) ==> context_text(ctx, k) is None,
{
}

/// The text a value puts into a slot, if any.
pub(crate) fn text_of(v: &ContextValue) -> (t: Option<String>)
    ensures
        match t {
            Some(s) => value_text(*v) == Some(s@),
            None => value_text(*v) is None,
        },
{
    match v {
        ContextValue::String(s) => Some(s.clone()),
        ContextValue::Number(n) => Some(n.clone()),
        _ => None,
    }
}

/// A map from names to values: each name at most once.
pub struct Context {
    entries: Vec<(String, ContextValue)>,
}

/// The entries of `s` as a map, when no name occurs twice.
pub open spec fn entries_map(s: Seq<(String, ContextValue)>) -> Map<Seq<char>, ContextValue> {
    Map::new(
        |k: Seq<char>| exists|i: int| 0 <= i < s.len() && #[trigger] s[i].0@ == k,
        |k: Seq<char>| s[choose|i: int| 0 <= i < s.len() && #[trigger] s[i].0@ == k].1,
    )
}

/// No name occurs twice among the entries.
pub open spec fn names_distinct(s: Seq<(String, ContextValue)>) -> bool {
    forall|i: int, j: int|
        0 <= i < s.len() && 0 <= j < s.len() && i != j ==> #[trigger] s[i].0@ != #[trigger] s[j].0@
}

/// The names of the entries, in order.
pub open spec fn entry_names(s: Seq<(String, ContextValue)>) -> Seq<Seq<char>> {
    s.map_values(|e: (String, ContextValue)| e.0@)
}

proof fn lemma_entries_map_dom(s: Seq<(String, ContextValue)>)
    requires
        names_distinct(s),
    ensures
        entries_map(s).dom() == entry_names(s).to_set(),
        entry_names(s).no_duplicates(),
        entries_map(s).len() == s.len(),
{
    let ks = entry_names(s);
    assert forall|k: Seq<char>| #[trigger] entries_map(s).dom().contains(k) == ks.to_set().contains(k) by {
        if entries_map(s).dom().contains(k) {
            let i = choose|i: int| 0 <= i < s.len() && #[trigger] s[i].0@ == k;
            assert(ks[i] == k);
        }
        if ks.contains(k) {
            let i = choose|i: int| 0 <= i < ks.len() && ks[i] == k;
            assert(s[i].0@ == k);
        }
    }
    assert(entries_map(s).dom() =~= ks.to_set());
    assert forall|i: int, j: int| 0 <= i < ks.len() && 0 <= j < ks.len() && i != j implies ks[i] != ks[j] by {
        assert(s[i].0@ != s[j].0@);
    }
    ks.unique_seq_to_set();
}

proof fn lemma_entries_map_at(s: Seq<(String, ContextValue)>, i: int)
    requires
        names_distinct(s),
        0 <= i < s.len(),
    ensures
        entries_map(s).contains_key(s[i].0@),
        entries_map(s)[s[i].0@] == s[i].1,
{
    let k = s[i].0@;
    assert(exists|m: int| 0 <= m < s.len() && #[trigger] s[m].0@ == k);
    let c = choose|m: int| 0 <= m < s.len() && #[trigger] s[m].0@ == k;
    assert(c == i);
}

impl Context {
    #[verifier::type_invariant]
    closed spec fn inv(self) -> bool {
        names_distinct(self.entries@)
    }

    /// The context as a map from names to values.
    pub closed spec fn as_map(self) -> Map<Seq<char>, ContextValue> {
        entries_map(self.entries@)
    }

    /// An empty context.
    pub fn new() -> (c: Context)
        ensures
            c@ == Map::<Seq<char>, ContextValue>::empty(),
    {
        let c = Context { entries: Vec::new() };
        assert(c@ =~= Map::<Seq<char>, ContextValue>::empty());
        c
    }

    /// Where `key` stands among the entries, if it does.
    fn position(&self, key: &String) -> (r: Option<usize>)
        ensures
            match r {
                Some(i) => i < self.entries@.len() && self.entries@[i as int].0@ == key@,
                None => forall|i: int|
                    0 <= i < self.entries@.len() ==> #[trigger] self.entries@[i].0@ != key@,
            },
    {
        let mut i: usize = 0;
        while i < self.entries.len()
            invariant
                i <= self.entries@.len(),
                forall|m: int| 0 <= m < i ==> #[trigger] self.entries@[m].0@ != key@,
            decreases self.entries@.len() - i,
        {
            if self.entries[i].0 == *key {
                return Some(i);
            }
            i += 1;
        }
        None
    }

    /// The value held for `key`, if any.
    pub fn get(&self, key: &str) -> (r: Option<&ContextValue>)
        ensures
            match r {
                Some(v) => self@.contains_key(key@) && *v == self@[key@],
                None => !self@.contains_key(key@),
            },
    {
        proof {
            use_type_invariant(self);
        }
        let k = key.to_owned();
        match self.position(&k) {
            Some(i) => {
                proof {
                    lemma_entries_map_at(self.entries@, i as int);
                }
                Some(&self.entries[i].1)
            },
            None => None,
        }
    }

    /// Holds `value` for `key`, in place of what was held for it; returns
    /// what was held for it before, if anything.
    pub fn insert(&mut self, key: String, value: ContextValue) -> (r: Option<ContextValue>)
        ensures
            final(self)@ == old(self)@.insert(key@, value),
            match r {
                Some(v) => old(self)@.contains_key(key@) && v == old(self)@[key@],
                None => !old(self)@.contains_key(key@),
            },
    {
        proof {
            use_type_invariant(&*self);
        }
        let ghost old_map = self@;
        let mut entries: Vec<(String, ContextValue)> = Vec::new();
        std::mem::swap(&mut entries, &mut self.entries);
        let ghost before = entries@;
        assert(entries_map(before) == old_map);
        let pos = {
            let probe = Context { entries };
            let p = probe.position(&key);
            entries = probe.entries;
            p
        };
        let ghost kv = key@;
        let r = match pos {
            Some(i) => {
                proof {
                    lemma_entries_map_at(before, i as int);
                }
                let (_, old_value) = entries.remove(i);
                entries.push((key, value));
                Some(old_value)
            },
            None => {
                entries.push((key, value));
                None
            },
        };
        let ghost after = entries@;
        assert(names_distinct(after)) by {
            assert forall|a: int, b: int|
                0 <= a < after.len() && 0 <= b < after.len() && a != b implies #[trigger] after[a].0@
                != #[trigger] after[b].0@ by {
                if a == after.len() - 1 || b == after.len() - 1 {
                } else {
                }
            }
        }
        assert(entries_map(after) =~= old_map.insert(kv, value)) by {
            assert forall|k: Seq<char>| #[trigger]
                entries_map(after).contains_key(k) == old_map.insert(kv, value).contains_key(
                    k,
                ) by {
                if entries_map(after).contains_key(k) {
                    let m = choose|m: int| 0 <= m < after.len() && #[trigger] after[m].0@ == k;
                    if k != kv {
                        assert(m < after.len() - 1);
                    }
                } else {
                    assert(after[after.len() - 1].0@ == kv);
                }
                if old_map.insert(kv, value).contains_key(k) && k != kv {
                    let m = choose|m: int| 0 <= m < before.len() && #[trigger] before[m].0@ == k;
                    assert(exists|n: int| 0 <= n < after.len() && #[trigger] after[n].0@ == k) by {
                        match pos {
                            Some(i) => {
                                if m < i {
                                    assert(after[m].0@ == k);
                                } else {
                                    assert(m != i);
                                    assert(after[m - 1].0@ == k);
                                }
                            },
                            None => {
                                assert(after[m].0@ == k);
                            },
                        }
                    }
                }
            }
            assert forall|k: Seq<char>|
                #[trigger] entries_map(after).contains_key(k) implies entries_map(after)[k]
                == old_map.insert(kv, value)[k] by {
                let m = choose|m: int| 0 <= m < after.len() && #[trigger] after[m].0@ == k;
                lemma_entries_map_at(after, m);
                if k == kv {
                    assert(m == after.len() - 1);
                } else {
                    match pos {
                        Some(i) => {
                            if m < i {
                                lemma_entries_map_at(before, m);
                            } else {
                                lemma_entries_map_at(before, m + 1);
                            }
                        },
                        None => {
                            lemma_entries_map_at(before, m);
                        },
                    }
                }
            }
        }
        self.entries = entries;
        r
    }

    /// The number of names that hold a value.
    pub fn len(&self) -> (n: usize)
        ensures
            n == self@.len(),
    {
        proof {
            use_type_invariant(self);
            lemma_entries_map_dom(self.entries@);
        }
        self.entries.len()
    }

    /// Whether no name holds a value.
    pub fn is_empty(&self) -> (b: bool)
        ensures
            b == (self@.len() == 0),
    {
        self.len() == 0
    }

    /// Whether a value is held for `key`.
    pub fn contains_key(&self, key: &str) -> (b: bool)
        ensures
            b == self@.contains_key(key@),
    {
        self.get(key).is_some()
    }

    /// The names that hold a value, each once, in no stated order.
    pub fn keys(&self) -> (ks: Vec<String>)
        ensures
            views(ks@).no_duplicates(),
            forall|k: Seq<char>| views(ks@).contains(k) <==> self@.contains_key(k),
    {
        proof {
            use_type_invariant(self);
            lemma_entries_map_dom(self.entries@);
        }
        let ghost names = entry_names(self.entries@);
        let mut ks: Vec<String> = Vec::new();
        let mut i: usize = 0;
        while i < self.entries.len()
            invariant
                i <= self.entries@.len(),
                names == entry_names(self.entries@),
                views(ks@) == names.take(i as int),
            decreases self.entries@.len() - i,
        {
            let ghost prev = ks@;
            let name = self.entries[i].0.clone();
            ks.push(name);
            assert(ks@ =~= prev.push(name));
            assert(names[i as int] == self.entries@[i as int].0@);
            assert(names.take(i + 1) =~= names.take(i as int).push(names[i as int]));
            i += 1;
            assert(views(ks@) =~= names.take(i as int));
        }
        assert(names.take(i as int) =~= names);
        ks
    }

    /// Removes what is held for `key`; returns it, if anything was held.
    pub fn remove(&mut self, key: &str) -> (r: Option<ContextValue>)
        ensures
            final(self)@ == old(self)@.remove(key@),
            match r {
                Some(v) => old(self)@.contains_key(key@) && v == old(self)@[key@],
                None => !old(self)@.contains_key(key@),
            },
    {
        proof {
            use_type_invariant(&*self);
        }
        let ghost old_map = self@;
        let k = key.to_owned();
        let mut entries: Vec<(String, ContextValue)> = Vec::new();
        std::mem::swap(&mut entries, &mut self.entries);
        let ghost before = entries@;
        let pos = {
            let probe = Context { entries };
            let p = probe.position(&k);
            entries = probe.entries;
            p
        };
        let ghost kv = k@;
        match pos {
            Some(i) => {
                proof {
                    lemma_entries_map_at(before, i as int);
                }
                let (_, old_value) = entries.remove(i);
                let ghost after = entries@;
                assert(names_distinct(after)) by {
                    assert forall|a: int, b: int|
                        0 <= a < after.len() && 0 <= b < after.len() && a != b implies #[trigger] after[a].0@
                        != #[trigger] after[b].0@ by {
                        let oa = if a < i { a } else { a + 1 };
                        let ob = if b < i { b } else { b + 1 };
                        assert(after[a] == before[oa]);
                        assert(after[b] == before[ob]);
                    }
                }
                assert(entries_map(after) =~= old_map.remove(kv)) by {
                    assert forall|q: Seq<char>| #[trigger]
                        entries_map(after).contains_key(q) == old_map.remove(kv).contains_key(q) by {
                        if entries_map(after).contains_key(q) {
                            let m = choose|m: int| 0 <= m < after.len() && #[trigger] after[m].0@ == q;
                            let om = if m < i { m } else { m + 1 };
                            assert(before[om].0@ == q);
                            assert(om != i);
                        }
                        if old_map.remove(kv).contains_key(q) {
                            let m = choose|m: int| 0 <= m < before.len() && #[trigger] before[m].0@ == q;
                            assert(m != i);
                            if m < i {
                                assert(after[m].0@ == q);
                            } else {
                                assert(after[m - 1].0@ == q);
                            }
                        }
                    }
                    assert forall|q: Seq<char>|
                        #[trigger] entries_map(after).contains_key(q) implies entries_map(after)[q]
                        == old_map.remove(kv)[q] by {
                        let m = choose|m: int| 0 <= m < after.len() && #[trigger] after[m].0@ == q;
                        lemma_entries_map_at(after, m);
                        let om = if m < i { m } else { m + 1 };
                        assert(after[m] == before[om]);
                        lemma_entries_map_at(before, om);
                    }
                }
                self.entries = entries;
                Some(old_value)
            },
            None => {
                assert(!old_map.contains_key(kv));
                assert(old_map.remove(kv) =~= old_map);
                self.entries = entries;
                None
            },
        }
    }
}

impl View for Context {
    type V = Map<Seq<char>, ContextValue>;

    open spec fn view(&self) -> Map<Seq<char>, ContextValue> {
        self.as_map()
    }
}

/// The function an injector runs on the context to produce its text.
pub type InjectorFn = Box<dyn Fn(&Context) -> String + Send + Sync>;

/// A rule: the slot it targets and the function that produces its text.
pub struct Injector<F = InjectorFn> {
    pub slot: String,
    pub fn_: F,
}

/// The ordered injectors of an assembly.
pub type Rules<F = InjectorFn> = Vec<Injector<F>>;

} // verus!
