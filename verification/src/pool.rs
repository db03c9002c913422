use vstd::prelude::*;
use vstd::hash_map::StringHashMap;
use crate::text::owned;

verus! {

/// Index of an interned string in a [`StringPool`].
#[derive(Clone, Copy, PartialEq, Eq, Structural, Debug)]
pub struct Symbol(pub usize);

/// Interning pool: every distinct string is stored once and referred to by
/// its [`Symbol`].
pub struct StringPool {
    pub values: Vec<String>,
    pub index: StringHashMap<usize>,
}

impl View for StringPool {
    type V = Seq<Seq<char>>;

    open spec fn view(&self) -> Seq<Seq<char>> {
        self.values@.map_values(|s: String| s@)
    }
}

/// No string occurs twice in the sequence.
pub open spec fn distinct_texts(s: Seq<Seq<char>>) -> bool {
    forall|i: int, j: int| 0 <= i < j < s.len() ==> s[i] != s[j]
}

impl StringPool {
    /// The pool's index agrees with its values.
    pub closed spec fn wf(&self) -> bool {
        &&& forall|i: int|
            0 <= i < self.values@.len() ==> #[trigger] self.index@.contains_key(self.values@[i]@)
                && self.index@[self.values@[i]@] == i
        &&& forall|k: Seq<char>|
            #[trigger] self.index@.contains_key(k) ==> self.index@[k] < self.values@.len()
                && self.values@[self.index@[k] as int]@ == k
    }

    pub proof fn lemma_wf_distinct(&self)
        requires
            self.wf(),
        ensures
            distinct_texts(self@),
    {
        assert forall|i: int, j: int| 0 <= i < j < self@.len() implies self@[i] != self@[j] by {
            assert(self.index@.contains_key(self.values@[i]@));
            assert(self.index@.contains_key(self.values@[j]@));
            assert(self@[i] == self.values@[i]@);
            assert(self@[j] == self.values@[j]@);
        }
    }

    /// An empty pool.
    pub fn new() -> (p: StringPool)
        ensures
            p.wf(),
            p@ == Seq::<Seq<char>>::empty(),
    {
        let p = StringPool { values: Vec::new(), index: StringHashMap::new() };
        assert(p@ =~= Seq::<Seq<char>>::empty());
        p
    }

    /// Number of interned strings.
    pub fn len(&self) -> (n: usize)
        ensures
            n == self@.len(),
    {
        self.values.len()
    }

    /// Looks a string up without interning it.
    pub fn lookup(&self, s: &str) -> (r: Option<Symbol>)
        requires
            self.wf(),
        ensures
            match r {
                Some(sym) => sym.0 < self@.len() && self@[sym.0 as int] == s@,
                None => !self@.contains(s@),
            },
    {
        match self.index.get(s) {
            Some(i) => Some(Symbol(*i)),
            None => {
                proof {
                    if self@.contains(s@) {
                        let k = choose|k: int| 0 <= k < self@.len() && self@[k] == s@;
                        assert(self.index@.contains_key(self.values@[k]@));
                    }
                }
                None
            },
        }
    }

    /// Returns the symbol of `s`, adding `s` to the pool when it is new.
    pub fn intern(&mut self, s: &str) -> (sym: Symbol)
        requires
            old(self).wf(),
        ensures
            final(self).wf(),
            sym.0 < final(self)@.len(),
            final(self)@[sym.0 as int] == s@,
            final(self)@ == (if old(self)@.contains(s@) {
                old(self)@
            } else {
                old(self)@.push(s@)
            }),
    {
        match self.lookup(s) {
            Some(sym) => sym,
            None => {
                let n = self.values.len();
                let value = owned(s);
                let key = owned(s);
                self.values.push(value);
                self.index.insert(key, n);
                proof {
                    assert(self@ =~= old(self)@.push(s@));
                    assert forall|i: int|
                        0 <= i < self.values@.len() implies #[trigger] self.index@.contains_key(
                        self.values@[i]@,
                    ) && self.index@[self.values@[i]@] == i by {
                        if i < n {
                            assert(old(self).values@[i]@ != s@) by {
                                assert(old(self)@[i] == old(self).values@[i]@);
                            }
                            assert(old(self).index@.contains_key(old(self).values@[i]@));
                            assert(self.values@[i] == old(self).values@[i]);
                        }
                    }
                    assert forall|k: Seq<char>|
                        #[trigger] self.index@.contains_key(k) implies self.index@[k]
                        < self.values@.len() && self.values@[self.index@[k] as int]@ == k by {
                        if k != s@ {
                            assert(old(self).index@.contains_key(k));
                        }
                    }
                }
                Symbol(n)
            },
        }
    }

    /// Resolves a symbol to its string.
    pub fn resolve(&self, sym: Symbol) -> (r: &str)
        requires
            sym.0 < self@.len(),
        ensures
            r@ == self@[sym.0 as int],
    {
        self.values[sym.0].as_str()
    }

    /// A pool with the same strings.
    pub fn duplicate(&self) -> (p: StringPool)
        requires
            self.wf(),
        ensures
            p.wf(),
            p@ == self@,
    {
        let mut p = StringPool::new();
        let mut i: usize = 0;
        proof { self.lemma_wf_distinct(); }
        while i < self.values.len()
            invariant
                i <= self@.len(),
                p.wf(),
                p@ == self@.subrange(0, i as int),
                distinct_texts(self@),
            decreases self.values.len() - i,
        {
            let s = self.values[i].as_str();
            proof {
                assert(!p@.contains(s@)) by {
                    if p@.contains(s@) {
                        let k = choose|k: int| 0 <= k < p@.len() && p@[k] == s@;
                        assert(self@[k] == self@[i as int]);
                    }
                }
            }
            p.intern(s);
            assert(p@ =~= self@.subrange(0, i + 1));
            i = i + 1;
        }
        assert(p@ =~= self@);
        p
    }
}

} // verus!
