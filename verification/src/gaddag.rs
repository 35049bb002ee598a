//! A GADDAG over the word list, stored as an fst, and the nodes that move generation walks.
use vstd::prelude::*;
use vstd::string::StrSliceExecFns;
use vstd::utf8::encode_utf8;
use crate::dict::{is_valid_word_chars, normalize_word, normalized, word_chars_ok, write_sorted_keys};
use crate::fst_set::{
    at_state, fst_decode, fst_state, live, next_bytes, node_find_input, node_is_final, node_len,
    node_transition, raw_bytes, raw_new, raw_root,
};
use crate::keys::{sorted_unique, strictly_sorted, views};

verus! {

/// Separator byte in GADDAG entries. Separates the reversed prefix from
/// the remaining suffix. Chosen to sort before all uppercase letters.
pub const SEPARATOR: u8 = 62u8;

/// The entry of the byte string `u` anchored at position `i`: `u[i]`, `u[i-1]`, ..., `u[0]`,
/// the separator, then `u[i+1..]`.
pub open spec fn gaddag_entry(u: Seq<u8>, i: int) -> Seq<u8> {
    Seq::new((i + 1) as nat, |k: int| u[i - k]) + seq![SEPARATOR] + u.skip(i + 1)
}

/// The bytes of a listed word as the GADDAG reads it: trimmed and upper-cased.
pub open spec fn word_bytes(w: Seq<char>) -> Seq<u8> {
    encode_utf8(normalized(w))
}

/// A listed word gives entries when, trimmed and upper-cased, it is all letters and at
/// least two bytes long.
pub open spec fn gaddag_word_ok(w: Seq<char>) -> bool {
    word_chars_ok(normalized(w)) && word_bytes(w).len() >= 2
}

/// `e` is the entry of `u` anchored at one of its first `m` positions.
pub open spec fn entry_of(u: Seq<u8>, m: int, e: Seq<u8>) -> bool {
    exists|j: int| 0 <= j < m && e == #[trigger] gaddag_entry(u, j)
}

/// `e` is an entry of one of the first `a` words of the list.
pub open spec fn listed_entry(words: Seq<&str>, a: int, e: Seq<u8>) -> bool {
    exists|x: int|
        0 <= x < a && gaddag_word_ok(#[trigger] words[x]@) && entry_of(
            word_bytes(words[x]@),
            word_bytes(words[x]@).len() as int,
            e,
        )
}

/// The entries a word list gives: one per position of each kept word.
pub open spec fn gaddag_keys(words: Seq<&str>) -> Set<Seq<u8>> {
    Set::new(|e: Seq<u8>| listed_entry(words, words.len() as int, e))
}

/// A byte can follow a path exactly when the path extended by it begins some key.
pub proof fn lemma_next_bytes(ks: Seq<Seq<u8>>, p: Seq<u8>, b: u8)
    ensures
        next_bytes(ks, p).contains(b) <==> live(ks, p.push(b)),
{
    let all = Seq::new(256, |i: int| i as u8);
    let pred = |c: u8| live(ks, p.push(c));
    if next_bytes(ks, p).contains(b) {
        let j = choose|j: int| 0 <= j < next_bytes(ks, p).len() && next_bytes(ks, p)[j] == b;
        all.lemma_filter_pred(pred, j);
    }
    if live(ks, p.push(b)) {
        assert(all[b as int] == b);
        all.lemma_filter_contains(pred, b as int);
    }
}

/// Pushing a byte vector adds its bytes to what the vector's byte strings contain.
proof fn lemma_push_contains(prev: Seq<Vec<u8>>, y: Vec<u8>)
    ensures
        forall|e: Seq<u8>|
            #[trigger] views(prev.push(y)).contains(e) <==> (views(prev).contains(e) || e == y@),
{
    let next = prev.push(y);
    assert(views(next) =~= views(prev).push(y@));
    assert forall|e: Seq<u8>| #[trigger] views(next).contains(e) <==> (views(prev).contains(e) || e == y@) by {
        if views(next).contains(e) && e != y@ {
            let t = choose|t: int| 0 <= t < views(next).len() && views(next)[t] == e;
            assert(views(prev)[t] == e);
        }
        if views(prev).contains(e) {
            let t = choose|t: int| 0 <= t < views(prev).len() && views(prev)[t] == e;
            assert(views(next)[t] == e);
        }
        if e == y@ {
            assert(views(next)[prev.len() as int] == e);
        }
    }
}

/// Every prefix of a path that begins a key begins it too.
pub proof fn lemma_live_prefix(ks: Seq<Seq<u8>>, p: Seq<u8>, q: Seq<u8>)
    requires
        live(ks, q),
        p.is_prefix_of(q),
    ensures
        live(ks, p),
{
    if p.len() > 0 {
        let k = choose|k: Seq<u8>| ks.contains(k) && q.is_prefix_of(k);
        assert(p =~= k.subrange(0, p.len() as int));
        assert(p.is_prefix_of(k));
    }
}

/// Every key is a path that begins a key.
pub proof fn lemma_key_live(ks: Seq<Seq<u8>>, k: Seq<u8>)
    requires
        ks.contains(k),
    ensures
        live(ks, k),
{
    assert(k.is_prefix_of(k));
}

/// A GADDAG (Graph Directed Acyclic Word Graph) stored as an FST.
///
/// For each word of length n, the GADDAG contains n entries. For example,
/// "CARE" produces:
///   - C>ARE  (anchor at C, read forward)
///   - AC>RE  (anchor at A, reversed prefix AC, then forward RE)
///   - RAC>E  (anchor at R, reversed prefix RAC, then forward E)
///   - ERAC>  (anchor at E, fully reversed)
///
/// This allows efficient enumeration of all words passing through any
/// anchor square during AI move generation.
pub struct Gaddag {
    fst: fst::raw::Fst<Vec<u8>>,
}

impl Gaddag {
    /// The bytes the GADDAG reads are in the format `fst`'s builder writes.
    #[verifier::type_invariant]
    spec fn well_formed(self) -> bool {
        fst_decode(raw_bytes(self.fst)) is Some
    }

    /// The bytes the GADDAG reads.
    pub closed spec fn bytes(&self) -> Seq<u8> {
        raw_bytes(self.fst)
    }

    /// Load a pre-built GADDAG from FST bytes, as `build` writes them.
    pub fn from_bytes(bytes: Vec<u8>) -> (r: Result<Self, fst::Error>)
        requires
            fst_decode(bytes@) is Some,
        ensures
            fst_decode(bytes@) is Some ==> r is Ok,
            r matches Ok(g) ==> g.bytes() == bytes@,
    {
        match raw_new(bytes) {
            Ok(fst) => Ok(Gaddag { fst }),
            Err(e) => Err(e),
        }
    }

    /// Build GADDAG FST bytes from a list of words. Words are normalized to
    /// uppercase. Returns raw FST bytes for saving to disk.
    pub fn build(words: &[&str]) -> (r: Result<Vec<u8>, fst::Error>)
        ensures
            r is Ok,
            r matches Ok(bytes) ==> fst_decode(bytes@) matches Some(ks) && strictly_sorted(ks)
                && ks.to_set() == gaddag_keys(words@),
    {
        let mut entries: Vec<Vec<u8>> = Vec::new();
        let nw = words.len();
        let mut a: usize = 0;
        while a < nw
            invariant
                a <= nw == words@.len(),
                forall|e: Seq<u8>|
                    views(entries@).contains(e) <==> #[trigger] listed_entry(words@, a as int, e),
            decreases nw - a,
        {
            let word = normalize_word(words[a]);
            let ghost before = entries@;
            if is_valid_word_chars(word.as_str()) {
                let bytes = word.as_str().as_bytes_vec();
                let n = bytes.len();
                if n >= 2 {
                    let mut i: usize = 0;
                    while i < n
                        invariant
                            i <= n == bytes@.len(),
                            bytes@ == word_bytes(words@[a as int]@),
                            forall|e: Seq<u8>|
                                #![trigger views(entries@).contains(e)]
                                views(entries@).contains(e) <==> (views(before).contains(e)
                                    || entry_of(bytes@, i as int, e)),
                        decreases n - i,
                    {
                        let entry = anchored_entry(&bytes, i);
                        let ghost prev = entries@;
                        proof {
                            lemma_push_contains(prev, entry);
                        }
                        entries.push(entry);
                        proof {
                            assert forall|e: Seq<u8>|
                                entry_of(bytes@, i + 1, e) <==> (entry_of(bytes@, i as int, e)
                                    || e == gaddag_entry(bytes@, i as int)) by {
                                if e == gaddag_entry(bytes@, i as int) {
                                    assert(entry_of(bytes@, i + 1, e));
                                }
                                if entry_of(bytes@, i + 1, e) {
                                    let j = choose|j: int| 0 <= j < i + 1 && e == #[trigger] gaddag_entry(bytes@, j);
                                    if j < i {
                                        assert(entry_of(bytes@, i as int, e));
                                    }
                                }
                            }
                        }
                        i = i + 1;
                    }
                    proof {
                        assert(gaddag_word_ok(words@[a as int]@));
                    }
                }
            }
            proof {
                assert forall|e: Seq<u8>| views(entries@).contains(e) <==> #[trigger] listed_entry(
                    words@,
                    a + 1,
                    e,
                ) by {
                    let u = word_bytes(words@[a as int]@);
                    if listed_entry(words@, a + 1, e) {
                        let x = choose|x: int|
                            0 <= x < a + 1 && gaddag_word_ok(#[trigger] words@[x]@) && entry_of(
                                word_bytes(words@[x]@),
                                word_bytes(words@[x]@).len() as int,
                                e,
                            );
                        if x < a {
                            assert(listed_entry(words@, a as int, e));
                        }
                    }
                    if listed_entry(words@, a as int, e) {
                        let x = choose|x: int|
                            0 <= x < a && gaddag_word_ok(#[trigger] words@[x]@) && entry_of(
                                word_bytes(words@[x]@),
                                word_bytes(words@[x]@).len() as int,
                                e,
                            );
                        assert(listed_entry(words@, a + 1, e));
                    }
                    if gaddag_word_ok(words@[a as int]@) && entry_of(u, u.len() as int, e) {
                        assert(listed_entry(words@, a + 1, e));
                    }
                }
            }
            a = a + 1;
        }
        let sorted = sorted_unique(entries);
        let r = write_sorted_keys(&sorted);
        proof {
            let ks = views(sorted@);
            assert forall|e: Seq<u8>| ks.to_set().contains(e) <==> gaddag_keys(words@).contains(e) by {
                assert(views(entries@).contains(e) <==> listed_entry(words@, words@.len() as int, e));
            }
            assert(ks.to_set() =~= gaddag_keys(words@));
        }
        r
    }

    /// A GADDAG of the words of the list, built and loaded.
    pub fn from_words(words: &[&str]) -> (g: Self)
        ensures
            fst_decode(g.bytes()) matches Some(ks) && strictly_sorted(ks) && ks.to_set() == gaddag_keys(words@),
    {
        let bytes = match Self::build(words) {
            Ok(b) => b,
            Err(_) => vstd::pervasive::unreached(),
        };
        match Self::from_bytes(bytes) {
            Ok(g) => g,
            Err(_) => vstd::pervasive::unreached(),
        }
    }

    /// Get the root node for traversal.
    pub fn root(&self) -> (r: GaddagNode<'_>)
        ensures
            r.path() == Seq::<u8>::empty(),
            r.bytes() == self.bytes(),
    {
        proof {
            use_type_invariant(self);
        }
        let addr = raw_root(&self.fst);
        GaddagNode { fst: &self.fst, addr, path: Ghost(Seq::empty()) }
    }

    /// Traverse from root following a sequence of bytes.
    pub fn follow_path(&self, path: &[u8]) -> (r: Option<GaddagNode<'_>>)
        ensures
            r matches Some(n) ==> n.path() == path@ && n.bytes() == self.bytes(),
            fst_decode(self.bytes()) matches Some(ks) ==> (r is Some <==> live(ks, path@)),
    {
        let mut node = self.root();
        let n = path.len();
        let mut i: usize = 0;
        assert(path@.take(0) =~= Seq::<u8>::empty());
        while i < n
            invariant
                i <= n == path@.len(),
                node.path() == path@.take(i as int),
                node.bytes() == self.bytes(),
                fst_decode(self.bytes()) matches Some(ks) ==> live(ks, node.path()),
            decreases n - i,
        {
            match node.follow(path[i]) {
                None => {
                    proof {
                        if let Some(ks) = fst_decode(self.bytes()) {
                            if live(ks, path@) {
                                assert(path@.take(i + 1) =~= path@.take(i as int).push(path@[i as int]));
                                lemma_live_prefix(ks, path@.take(i + 1), path@);
                            }
                        }
                    }
                    return None;
                },
                Some(next) => {
                    assert(path@.take(i + 1) =~= path@.take(i as int).push(path@[i as int]));
                    node = next;
                },
            }
            i = i + 1;
        }
        assert(path@.take(n as int) =~= path@);
        Some(node)
    }
}

/// A node in the GADDAG, used for traversal during move generation.
pub struct GaddagNode<'a> {
    fst: &'a fst::raw::Fst<Vec<u8>>,
    addr: usize,
    path: Ghost<Seq<u8>>,
}

impl<'a> GaddagNode<'a> {
    #[verifier::type_invariant]
    spec fn reached(self) -> bool {
        fst_decode(raw_bytes(*self.fst)) matches Some(ks) && live(ks, self.path@) && self.addr
            == fst_state(raw_bytes(*self.fst), self.path@)
    }

    /// The bytes followed from the root to reach this node.
    pub closed spec fn path(&self) -> Seq<u8> {
        self.path@
    }

    /// The bytes of the GADDAG this node belongs to.
    pub closed spec fn bytes(&self) -> Seq<u8> {
        raw_bytes(*self.fst)
    }

    /// Whether this node marks the end of a complete GADDAG entry (valid word).
    pub fn is_terminal(&self) -> (r: bool)
        ensures
            fst_decode(self.bytes()) is Some,
            fst_decode(self.bytes()) matches Some(ks) ==> r == ks.contains(self.path()),
    {
        proof {
            use_type_invariant(self);
            if let Some(ks) = fst_decode(self.bytes()) {
                assert(at_state(raw_bytes(*self.fst), ks, self.path@, self.addr));
            }
        }
        node_is_final(self.fst, self.addr)
    }

    /// Follow an edge labeled with the given byte.
    pub fn follow(&self, byte: u8) -> (r: Option<GaddagNode<'a>>)
        ensures
            fst_decode(self.bytes()) is Some,
            r matches Some(n) ==> n.path() == self.path().push(byte) && n.bytes() == self.bytes(),
            fst_decode(self.bytes()) matches Some(ks) ==> (r is Some <==> live(
                ks,
                self.path().push(byte),
            )),
    {
        proof {
            use_type_invariant(self);
            if let Some(ks) = fst_decode(self.bytes()) {
                assert(at_state(raw_bytes(*self.fst), ks, self.path@, self.addr));
                lemma_next_bytes(ks, self.path@, byte);
            }
        }
        match node_find_input(self.fst, self.addr, byte) {
            None => None,
            Some(idx) => {
                let (inp, addr) = node_transition(self.fst, self.addr, idx);
                proof {
                    if let Some(ks) = fst_decode(self.bytes()) {
                        assert(next_bytes(ks, self.path@).contains(byte));
                    }
                }
                Some(GaddagNode { fst: self.fst, addr, path: Ghost(self.path@.push(byte)) })
            },
        }
    }

    /// Get all outgoing transitions from this node.
    pub fn transitions(&self) -> (r: Vec<(u8, GaddagNode<'a>)>)
        ensures
            forall|i: int|
                0 <= i < r@.len() ==> (#[trigger] r@[i]).1.path() == self.path().push(r@[i].0)
                    && r@[i].1.bytes() == self.bytes(),
            fst_decode(self.bytes()) matches Some(ks) ==> r@.len() == next_bytes(ks, self.path()).len()
                && forall|i: int|
                0 <= i < r@.len() ==> (#[trigger] r@[i]).0 == next_bytes(ks, self.path())[i],
    {
        proof {
            use_type_invariant(self);
            if let Some(ks) = fst_decode(self.bytes()) {
                assert(at_state(raw_bytes(*self.fst), ks, self.path@, self.addr));
            }
        }
        let n = node_len(self.fst, self.addr);
        let mut out: Vec<(u8, GaddagNode<'a>)> = Vec::new();
        let mut i: usize = 0;
        while i < n
            invariant
                i <= n,
                out@.len() == i,
                fst_decode(self.bytes()) is Some,
                forall|ks: Seq<Seq<u8>>, p: Seq<u8>|
                    #[trigger] at_state(raw_bytes(*self.fst), ks, p, self.addr) ==> n
                        == next_bytes(ks, p).len(),
                fst_decode(self.bytes()) matches Some(ks) ==> n == next_bytes(ks, self.path()).len()
                    && at_state(raw_bytes(*self.fst), ks, self.path@, self.addr),
                fst_decode(self.bytes()) matches Some(ks) ==> live(ks, self.path())
                    && self.addr == fst_state(self.bytes(), self.path()),
                forall|j: int|
                    0 <= j < out@.len() ==> (#[trigger] out@[j]).1.path() == self.path().push(
                        out@[j].0,
                    ) && out@[j].1.bytes() == self.bytes(),
                fst_decode(self.bytes()) matches Some(ks) ==> forall|j: int|
                    0 <= j < out@.len() ==> (#[trigger] out@[j]).0 == next_bytes(ks, self.path())[j],
            decreases n - i,
        {
            let (inp, addr) = node_transition(self.fst, self.addr, i);
            proof {
                if let Some(ks) = fst_decode(self.bytes()) {
                    let nb = next_bytes(ks, self.path@);
                    assert(nb.contains(inp)) by {
                        assert(nb[i as int] == inp);
                    }
                    lemma_next_bytes(ks, self.path@, inp);
                }
            }
            out.push((inp, GaddagNode { fst: self.fst, addr, path: Ghost(self.path@.push(inp)) }));
            i = i + 1;
        }
        out
    }

    /// Check if this node has a transition for the given byte.
    pub fn has_edge(&self, byte: u8) -> (r: bool)
        ensures
            fst_decode(self.bytes()) matches Some(ks) ==> r == live(ks, self.path().push(byte)),
    {
        proof {
            use_type_invariant(self);
            if let Some(ks) = fst_decode(self.bytes()) {
                assert(at_state(raw_bytes(*self.fst), ks, self.path@, self.addr));
                lemma_next_bytes(ks, self.path@, byte);
            }
        }
        node_find_input(self.fst, self.addr, byte).is_some()
    }
}

/// The entry of `bytes` anchored at `i`.
fn anchored_entry(bytes: &Vec<u8>, i: usize) -> (e: Vec<u8>)
    requires
        i < bytes@.len(),
    ensures
        e@ == gaddag_entry(bytes@, i as int),
{
    let n = bytes.len();
    let mut entry: Vec<u8> = Vec::new();
    let mut k: usize = 0;
    while k <= i
        invariant
            i < n == bytes@.len(),
            k <= i + 1,
            entry@ == Seq::new(k as nat, |t: int| bytes@[i - t]),
        decreases i + 1 - k,
    {
        entry.push(bytes[i - k]);
        assert(entry@ =~= Seq::new((k + 1) as nat, |t: int| bytes@[i - t]));
        k = k + 1;
    }
    entry.push(SEPARATOR);
    let mut j: usize = i + 1;
    while j < n
        invariant
            i < n == bytes@.len(),
            i + 1 <= j <= n,
            entry@ == Seq::new((i + 1) as nat, |t: int| bytes@[i - t]) + seq![SEPARATOR]
                + bytes@.subrange(i + 1, j as int),
        decreases n - j,
    {
        entry.push(bytes[j]);
        assert(bytes@.subrange(i + 1, j + 1) =~= bytes@.subrange(i + 1, j as int).push(bytes@[j as int]));
        j = j + 1;
    }
    assert(bytes@.subrange(i + 1, n as int) =~= bytes@.skip(i + 1));
    entry
}

/// Every entry of every kept word is a key of a GADDAG built from the list, and every key is
/// such an entry; each is a path from the root that ends at a terminal node.
pub proof fn lemma_built_gaddag_entries(words: Seq<&str>, ks: Seq<Seq<u8>>, a: int, i: int)
    requires
        ks.to_set() == gaddag_keys(words),
        0 <= a < words.len(),
        gaddag_word_ok(words[a]@),
        0 <= i < word_bytes(words[a]@).len(),
    ensures
        ks.contains(gaddag_entry(word_bytes(words[a]@), i)),
        live(ks, gaddag_entry(word_bytes(words[a]@), i)),
{
    let e = gaddag_entry(word_bytes(words[a]@), i);
    assert(entry_of(word_bytes(words[a]@), word_bytes(words[a]@).len() as int, e));
    assert(listed_entry(words, words.len() as int, e));
    assert(gaddag_keys(words).contains(e));
    assert(ks.to_set().contains(e));
    lemma_key_live(ks, e);
}

} // verus!
