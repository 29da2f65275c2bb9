//! A trie of lowercase ASCII words (`a` to `z`).
use vstd::prelude::*;
use vstd::string::StringSliceAdditionalSpecFns;

verus! {

/// A trie node: one optional subtrie per letter, and whether a word ends here.
pub struct Trie {
    child: [Option<Box<Trie>>; 26],
    mark: bool,
}

/// Every byte is a lowercase ASCII letter.
pub open spec fn lowercase(w: Seq<u8>) -> bool {
    forall|i: int| 0 <= i < w.len() ==> 97 <= #[trigger] w[i] <= 122
}

impl Trie {
    /// Whether the word `w` is stored below this node.
    pub closed spec fn has_word(self, w: Seq<u8>) -> bool
        decreases w.len(),
    {
        if w.len() == 0 {
            self.mark
        } else {
            let i = w[0] - 97;
            &&& 0 <= i < 26
            &&& self.child@[i] is Some
            &&& self.child@[i].unwrap().has_word(w.drop_first())
        }
    }

    /// An empty trie.
    pub fn new() -> (r: Self)
        ensures
            forall|w: Seq<u8>| !r.has_word(w),
    {
        let r = Self {
            child: [
                None, None, None, None, None, None, None, None, None, None, None, None, None,
                None, None, None, None, None, None, None, None, None, None, None, None, None,
            ],
            mark: false,
        };
        r
    }

    /// Stores `word`.
    pub fn insert(&mut self, word: &str)
        requires
            lowercase(word.spec_bytes()),
        ensures
            forall|w: Seq<u8>| #[trigger]
                final(self).has_word(w) == (w == word.spec_bytes() || old(self).has_word(w)),
    {
        let b = word.as_bytes();
        self.insert_from(b, 0);
        assert(b@.subrange(0, b@.len() as int) == b@);
    }

    fn insert_from(&mut self, b: &[u8], k: usize)
        requires
            k <= b@.len(),
            lowercase(b@),
        ensures
            forall|w: Seq<u8>| #[trigger]
                final(self).has_word(w) == (w == b@.subrange(k as int, b@.len() as int) || old(
                    self,
                ).has_word(w)),
        decreases b@.len() - k,
    {
        let ghost sub = b@.subrange(k as int, b@.len() as int);
        if k == b.len() {
            self.mark = true;
            assert(sub =~= Seq::<u8>::empty());
            assert forall|w: Seq<u8>| #[trigger]
                self.has_word(w) == (w == sub || old(self).has_word(w)) by {
                if w.len() == 0 {
                    assert(w =~= sub);
                }
            }
            return;
        }
        let i = (b[k] - 97u8) as usize;
        let mut slot: Option<Box<Trie>> = None;
        core::mem::swap(&mut self.child[i], &mut slot);
        let ghost before = slot;
        let mut node = match slot {
            Some(n) => *n,
            None => Trie::new(),
        };
        let ghost node0 = node;
        node.insert_from(b, k + 1);
        let ghost node1 = node;
        self.child[i] = Some(Box::new(node));
        proof {
            assert(before == old(self).child@[i as int]);
            assert(self.child@[i as int] == Some(Box::new(node1)));
            assert(self.mark == old(self).mark);
            let rest = b@.subrange(k + 1, b@.len() as int);
            assert(sub[0] == b@[k as int]);
            assert(sub.drop_first() =~= rest);
            assert forall|w: Seq<u8>| #[trigger]
                self.has_word(w) == (w == sub || old(self).has_word(w)) by {
                if w.len() > 0 {
                    let j = w[0] - 97;
                    if j == i {
                        if w.drop_first() == rest {
                            assert(w.len() == sub.len());
                            assert forall|n: int| 0 <= n < w.len() implies w[n] == sub[n] by {
                                if n > 0 {
                                    assert(w[n] == w.drop_first()[n - 1]);
                                    assert(sub[n] == sub.drop_first()[n - 1]);
                                }
                            }
                            assert(w =~= sub);
                        }
                        if w == sub {
                            assert(w.drop_first() == rest);
                        }
                        assert(node0.has_word(w.drop_first()) == (before is Some
                            && before.unwrap().has_word(w.drop_first())));
                        assert(node1.has_word(w.drop_first()) == (w.drop_first() == rest
                            || node0.has_word(w.drop_first())));
                    } else {
                        assert(w[0] != sub[0]);
                        assert(w != sub);
                        if 0 <= j < 26 {
                            assert(self.child@[j] == old(self).child@[j]);
                        }
                    }
                } else {
                    assert(w != sub);
                }
            }
        }
    }

    /// Whether this node has no mark and no subtrie, so holds no word.
    fn is_bare(&self) -> (r: bool)
        ensures
            r ==> forall|w: Seq<u8>| !self.has_word(w),
    {
        if self.mark {
            return false;
        }
        let mut c: usize = 0;
        while c < 26
            invariant
                c <= 26,
                forall|j: int| 0 <= j < c ==> self.child@[j] is None,
            decreases 26 - c,
        {
            if self.child[c].is_some() {
                return false;
            }
            c += 1;
        }
        assert forall|w: Seq<u8>| !self.has_word(w) by {
            if w.len() > 0 {
                let j = w[0] - 97;
                if 0 <= j < 26 {
                    assert(self.child@[j] is None);
                }
            }
        }
        true
    }

    /// Removes `word`; subtries left without words are dropped.
    pub fn delete(&mut self, word: &str)
        requires
            lowercase(word.spec_bytes()),
        ensures
            forall|w: Seq<u8>| #[trigger]
                final(self).has_word(w) == (w != word.spec_bytes() && old(self).has_word(w)),
    {
        let b = word.as_bytes();
        self.delete_from(b, 0);
        assert(b@.subrange(0, b@.len() as int) == b@);
    }

    fn delete_from(&mut self, b: &[u8], k: usize)
        requires
            k <= b@.len(),
            lowercase(b@),
        ensures
            forall|w: Seq<u8>| #[trigger]
                final(self).has_word(w) == (w != b@.subrange(k as int, b@.len() as int) && old(
                    self,
                ).has_word(w)),
        decreases b@.len() - k,
    {
        let ghost sub = b@.subrange(k as int, b@.len() as int);
        if k == b.len() {
            self.mark = false;
            assert(sub =~= Seq::<u8>::empty());
            assert forall|w: Seq<u8>| #[trigger]
                self.has_word(w) == (w != sub && old(self).has_word(w)) by {
                if w.len() == 0 {
                    assert(w =~= sub);
                }
            }
            return;
        }
        let i = (b[k] - 97u8) as usize;
        let mut slot: Option<Box<Trie>> = None;
        core::mem::swap(&mut self.child[i], &mut slot);
        let ghost before = slot;
        let ghost rest = b@.subrange(k + 1, b@.len() as int);
        proof {
            assert(sub[0] == b@[k as int]);
            assert(sub.drop_first() =~= rest);
        }
        match slot {
            None => {
                assert forall|w: Seq<u8>| #[trigger]
                    self.has_word(w) == (w != sub && old(self).has_word(w)) by {
                    if w == sub {
                        assert(w.drop_first() == rest);
                    }
                    if w.len() > 0 {
                        let j = w[0] - 97;
                        if j != i && 0 <= j < 26 {
                            assert(self.child@[j] == old(self).child@[j]);
                        }
                    }
                }
            },
            Some(n) => {
                let mut node = *n;
                let ghost node0 = node;
                node.delete_from(b, k + 1);
                let ghost node1 = node;
                if !node.is_bare() {
                    self.child[i] = Some(Box::new(node));
                }
                proof {
                    assert forall|w: Seq<u8>| #[trigger]
                        self.has_word(w) == (w != sub && old(self).has_word(w)) by {
                        if w.len() > 0 {
                            let j = w[0] - 97;
                            if j == i {
                                if w.drop_first() == rest {
                                    assert(w.len() == sub.len());
                                    assert forall|m: int| 0 <= m < w.len() implies w[m]
                                        == sub[m] by {
                                        if m > 0 {
                                            assert(w[m] == w.drop_first()[m - 1]);
                                            assert(sub[m] == sub.drop_first()[m - 1]);
                                        }
                                    }
                                    assert(w =~= sub);
                                }
                                if w == sub {
                                    assert(w.drop_first() == rest);
                                }
                                assert(node1.has_word(w.drop_first()) == (w.drop_first() != rest
                                    && node0.has_word(w.drop_first())));
                            } else {
                                assert(w[0] != sub[0]);
                                if 0 <= j < 26 {
                                    assert(self.child@[j] == old(self).child@[j]);
                                }
                            }
                        } else {
                            assert(w != sub);
                        }
                    }
                }
            },
        }
    }

    /// Whether `word` is stored.
    pub fn find(&mut self, word: &str) -> (r: bool)
        ensures
            r == old(self).has_word(word.spec_bytes()),
            *final(self) == *old(self),
    {
        let b = word.as_bytes();
        let mut node: &Trie = self;
        let mut k: usize = 0;
        assert(b@.subrange(0, b@.len() as int) =~= b@);
        while k < b.len()
            invariant
                k <= b@.len(),
                b@ == word.spec_bytes(),
                old(self).has_word(b@) == node.has_word(b@.subrange(k as int, b@.len() as int)),
            decreases b@.len() - k,
        {
            let ghost sub = b@.subrange(k as int, b@.len() as int);
            assert(sub[0] == b@[k as int]);
            assert(sub.drop_first() =~= b@.subrange(k + 1, b@.len() as int));
            if b[k] < 97u8 || b[k] > 122u8 {
                return false;
            }
            let i = (b[k] - 97u8) as usize;
            match &node.child[i] {
                Some(n) => {
                    node = n;
                },
                None => {
                    return false;
                },
            }
            k += 1;
        }
        assert(b@.subrange(k as int, b@.len() as int) =~= Seq::<u8>::empty());
        node.mark
    }
}

} // verus!
