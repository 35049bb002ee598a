//! The word dictionary: normalization of words and an fst set of their bytes.
use vstd::prelude::*;
use vstd::string::StrSliceExecFns;
use vstd::utf8::{encode_utf8, encode_utf8_decode_utf8};
use crate::fst_set::{
    builder_insert, builder_into_inner, builder_keys, builder_memory, fst_decode, set_bytes,
    set_contains, set_len, set_new,
};
use crate::keys::{lex_lt, sorted_unique, strictly_sorted, views, lemma_strictly_sorted_no_dups};
use crate::text::{
    chars_of, is_alpha, is_ascii_alpha, is_white, is_whitespace_char, lead_white, string_from_chars,
    to_upper, trail_white, trim, upper_seq,
};

verus! {

/// A word as the dictionary stores it: trimmed and in ASCII upper case.
pub open spec fn normalized(w: Seq<char>) -> Seq<char> {
    upper_seq(trim(w))
}

/// Whether `w` can be a dictionary word: not empty, and ASCII letters only.
pub open spec fn word_chars_ok(w: Seq<char>) -> bool {
    w.len() > 0 && forall|i: int| 0 <= i < w.len() ==> is_ascii_alpha(#[trigger] w[i])
}

proof fn lemma_lead_white_skip(s: Seq<char>, i: int)
    requires
        0 <= i < s.len(),
        is_white(s[i]),
    ensures
        lead_white(s.skip(i)) == 1 + lead_white(s.skip(i + 1)),
{
    assert(s.skip(i).drop_first() =~= s.skip(i + 1));
}

proof fn lemma_trail_white_take(t: Seq<char>, e: int)
    requires
        0 < e <= t.len(),
        is_white(t[e - 1]),
    ensures
        trail_white(t.take(e)) == 1 + trail_white(t.take(e - 1)),
{
    assert(t.take(e).drop_last() =~= t.take(e - 1));
}

/// Normalize a word for dictionary lookup (uppercase, trimmed).
pub fn normalize_word(word: &str) -> (r: String)
    ensures
        r@ == normalized(word@),
{
    let cs = chars_of(word);
    let ghost s = cs@;
    let n = cs.len();
    let mut i: usize = 0;
    assert(s.skip(0) =~= s);
    while i < n && is_whitespace_char(cs[i])
        invariant
            i <= n,
            n == s.len(),
            s == cs@,
            lead_white(s) == i + lead_white(s.skip(i as int)),
        decreases n - i,
    {
        proof {
            lemma_lead_white_skip(s, i as int);
        }
        i = i + 1;
    }
    proof {
        if i < n {
            assert(!is_white(s.skip(i as int)[0]));
        }
        assert(lead_white(s.skip(i as int)) == 0);
    }
    let ghost t = s.skip(i as int);
    let mut e: usize = n;
    assert(t.take(t.len() as int) =~= t);
    while e > i && is_whitespace_char(cs[e - 1])
        invariant
            i <= e <= n,
            n == s.len(),
            s == cs@,
            t == s.skip(i as int),
            trail_white(t) == (n - e) + trail_white(t.take(e - i)),
        decreases e,
    {
        proof {
            assert(t[e - i - 1] == s[e - 1]);
            lemma_trail_white_take(t, e - i);
        }
        e = e - 1;
    }
    proof {
        if e > i {
            assert(t.take(e - i).last() == s[e - 1]);
        }
        assert(trail_white(t.take(e - i)) == 0);
    }
    let mut out: Vec<char> = Vec::new();
    let mut k: usize = i;
    while k < e
        invariant
            i <= k <= e <= n,
            n == s.len(),
            s == cs@,
            out@ == upper_seq(s.subrange(i as int, k as int)),
        decreases e - k,
    {
        out.push(to_upper(cs[k]));
        k = k + 1;
        assert(out@ =~= upper_seq(s.subrange(i as int, k as int)));
    }
    assert(trim(s) =~= s.subrange(i as int, e as int));
    string_from_chars(&out)
}

/// Check if a string contains only ASCII alphabetic characters.
pub fn is_valid_word_chars(word: &str) -> (r: bool)
    ensures
        r == word_chars_ok(word@),
{
    let cs = chars_of(word);
    if cs.len() == 0 {
        return false;
    }
    let mut i: usize = 0;
    while i < cs.len()
        invariant
            i <= cs@.len(),
            cs@ == word@,
            forall|j: int| 0 <= j < i ==> is_ascii_alpha(#[trigger] cs@[j]),
        decreases cs@.len() - i,
    {
        if !is_alpha(cs[i]) {
            return false;
        }
        i = i + 1;
    }
    true
}


/// The keys a word list gives: each word trimmed and upper-cased, kept where it is not empty
/// and all ASCII letters, as its UTF-8 bytes.
pub open spec fn word_keys(words: Seq<&str>) -> Set<Seq<u8>> {
    Set::new(
        |k: Seq<u8>|
            exists|i: int|
                0 <= i < words.len() && word_chars_ok(normalized(#[trigger] words[i]@)) && k
                    == encode_utf8(normalized(words[i]@)),
    )
}

/// The fst bytes of a set holding the given keys, which come in increasing order.
pub(crate) fn write_sorted_keys(sorted: &Vec<Vec<u8>>) -> (r: Result<Vec<u8>, fst::Error>)
    requires
        strictly_sorted(views(sorted@)),
    ensures
        r is Ok,
        r matches Ok(bytes) ==> fst_decode(bytes@) == Some(views(sorted@)),
{
    let mut b = builder_memory();
    let m = sorted.len();
    let mut j: usize = 0;
    while j < m
        invariant
            j <= m == sorted@.len(),
            strictly_sorted(views(sorted@)),
            builder_keys(b) == views(sorted@).take(j as int),
        decreases m - j,
    {
        proof {
            if j > 0 {
                assert(builder_keys(b).last() == views(sorted@)[j - 1]);
                assert(lex_lt(views(sorted@)[j - 1], views(sorted@)[j as int]));
            }
        }
        match builder_insert(&mut b, sorted[j].as_slice()) {
            Ok(()) => {},
            Err(e) => {
                return Err(e);
            },
        }
        assert(views(sorted@).take(j + 1) =~= views(sorted@).take(j as int).push(
            views(sorted@)[j as int],
        ));
        j = j + 1;
    }
    assert(views(sorted@).take(m as int) =~= views(sorted@));
    builder_into_inner(b)
}

/// FST-backed word dictionary for fast membership testing.
pub struct FstDictionary {
    set: fst::Set<Vec<u8>>,
}

impl FstDictionary {
    /// The bytes the dictionary reads are in the format `fst`'s builder writes.
    #[verifier::type_invariant]
    spec fn well_formed(self) -> bool {
        fst_decode(set_bytes(self.set)) is Some
    }

    /// The dictionary's keys in increasing order, where its bytes are in the builder's format.
    pub closed spec fn keys(&self) -> Option<Seq<Seq<u8>>> {
        fst_decode(set_bytes(self.set))
    }

    /// Load a dictionary from pre-built FST bytes, as `build` writes them.
    pub fn from_bytes(bytes: Vec<u8>) -> (r: Result<Self, fst::Error>)
        requires
            fst_decode(bytes@) is Some,
        ensures
            fst_decode(bytes@) is Some ==> r is Ok,
            r matches Ok(d) ==> d.keys() == fst_decode(bytes@),
    {
        match set_new(bytes) {
            Ok(set) => Ok(FstDictionary { set }),
            Err(e) => Err(e),
        }
    }

    /// Build FST bytes from a list of words. Words are normalized to uppercase,
    /// sorted, and deduplicated. Returns the raw FST bytes for saving to disk.
    pub fn build(words: &[&str]) -> (r: Result<Vec<u8>, fst::Error>)
        ensures
            r is Ok,
            r matches Ok(bytes) ==> fst_decode(bytes@) matches Some(ks) && strictly_sorted(ks)
                && ks.to_set() == word_keys(words@),
    {
        let mut keys: Vec<Vec<u8>> = Vec::new();
        let n = words.len();
        let mut i: usize = 0;
        while i < n
            invariant
                i <= n == words@.len(),
                forall|k: Seq<u8>|
                    views(keys@).contains(k) <==> exists|a: int|
                        0 <= a < i && word_chars_ok(normalized(#[trigger] words@[a]@)) && k
                            == encode_utf8(normalized(words@[a]@)),
            decreases n - i,
        {
            let w = normalize_word(words[i]);
            let ghost old_keys = keys@;
            if is_valid_word_chars(w.as_str()) {
                let bytes = w.as_str().as_bytes_vec();
                keys.push(bytes);
                proof {
                    assert(views(keys@) =~= views(old_keys).push(encode_utf8(normalized(words@[i as int]@))));
                    assert forall|k: Seq<u8>| views(keys@).contains(k) <==> exists|a: int|
                        0 <= a < i + 1 && word_chars_ok(normalized(#[trigger] words@[a]@)) && k
                            == encode_utf8(normalized(words@[a]@)) by {
                        if views(keys@).contains(k) && k != encode_utf8(normalized(words@[i as int]@)) {
                            let j = choose|j: int| 0 <= j < views(keys@).len() && views(keys@)[j] == k;
                            assert(views(old_keys)[j] == k);
                            assert(views(old_keys).contains(k));
                        }
                        if exists|a: int| 0 <= a < i + 1 && word_chars_ok(normalized(#[trigger] words@[a]@)) && k
                            == encode_utf8(normalized(words@[a]@)) {
                            let a = choose|a: int| 0 <= a < i + 1 && word_chars_ok(normalized(#[trigger] words@[a]@)) && k
                                == encode_utf8(normalized(words@[a]@));
                            if a < i {
                                assert(views(old_keys).contains(k));
                                let j = choose|j: int| 0 <= j < views(old_keys).len() && views(old_keys)[j] == k;
                                assert(views(keys@)[j] == k);
                            } else {
                                assert(views(keys@)[old_keys.len() as int] == k);
                            }
                        }
                    }
                }
            }
            i = i + 1;
        }
        let sorted = sorted_unique(keys);
        let r = write_sorted_keys(&sorted);
        proof {
            let ks = views(sorted@);
            assert forall|k: Seq<u8>| ks.to_set().contains(k) <==> word_keys(words@).contains(k) by {
                if views(keys@).contains(k) {
                }
            }
            assert(ks.to_set() =~= word_keys(words@));
        }
        r
    }

    /// A dictionary of the words of the list, built and loaded.
    pub fn from_words(words: &[&str]) -> (d: Self)
        ensures
            d.keys() matches Some(ks) && strictly_sorted(ks) && ks.to_set() == word_keys(words@),
    {
        let bytes = match Self::build(words) {
            Ok(b) => b,
            Err(_) => vstd::pervasive::unreached(),
        };
        match Self::from_bytes(bytes) {
            Ok(d) => d,
            Err(_) => vstd::pervasive::unreached(),
        }
    }

    /// Check if a word is in the dictionary. Case-insensitive.
    pub fn contains(&self, word: &str) -> (r: bool)
        ensures
            self.keys() matches Some(ks) ==> r == ks.contains(encode_utf8(normalized(word@))),
    {
        proof {
            use_type_invariant(self);
        }
        let normalized = normalize_word(word);
        set_contains(&self.set, normalized.as_str().as_bytes())
    }

    /// Number of words in the dictionary.
    pub fn len(&self) -> (r: usize)
        ensures
            self.keys() matches Some(ks) ==> r == ks.len(),
    {
        set_len(&self.set)
    }

    pub fn is_empty(&self) -> (r: bool)
        ensures
            self.keys() matches Some(ks) ==> r == (ks.len() == 0),
    {
        set_len(&self.set) == 0
    }
}

/// A dictionary built from a word list holds a word exactly when some listed word, trimmed
/// and upper-cased, is all letters and reads the same as the word trimmed and upper-cased.
pub proof fn lemma_built_dictionary_contains(words: Seq<&str>, ks: Seq<Seq<u8>>, w: Seq<char>)
    requires
        strictly_sorted(ks),
        ks.to_set() == word_keys(words),
    ensures
        ks.contains(encode_utf8(normalized(w))) <==> exists|i: int|
            0 <= i < words.len() && word_chars_ok(normalized(#[trigger] words[i]@)) && normalized(
                words[i]@,
            ) == normalized(w),
{
    let k = encode_utf8(normalized(w));
    assert(ks.contains(k) <==> ks.to_set().contains(k));
    if ks.contains(k) {
        assert(word_keys(words).contains(k));
        let i = choose|i: int|
            0 <= i < words.len() && word_chars_ok(normalized(#[trigger] words[i]@)) && k
                == encode_utf8(normalized(words[i]@));
        encode_utf8_decode_utf8(normalized(w));
        encode_utf8_decode_utf8(normalized(words[i]@));
        assert(normalized(words[i]@) == normalized(w));
    }
    if exists|i: int|
        0 <= i < words.len() && word_chars_ok(normalized(#[trigger] words[i]@)) && normalized(
            words[i]@,
        ) == normalized(w) {
        let i = choose|i: int|
            0 <= i < words.len() && word_chars_ok(normalized(#[trigger] words[i]@)) && normalized(
                words[i]@,
            ) == normalized(w);
        assert(word_keys(words).contains(k));
    }
}

/// A dictionary built from a word list holds each of its distinct keys once.
pub proof fn lemma_built_dictionary_len(words: Seq<&str>, ks: Seq<Seq<u8>>)
    requires
        strictly_sorted(ks),
        ks.to_set() == word_keys(words),
    ensures
        ks.len() == word_keys(words).len(),
{
    lemma_strictly_sorted_no_dups(ks);
    ks.unique_seq_to_set();
}


/// A word is kept exactly when it has at least one character and every character is an
/// ASCII letter, `a` to `z` or `A` to `Z`: any non-empty string of such letters is a word.
pub proof fn lemma_word_chars_are_letters(w: Seq<char>)
    ensures
        word_chars_ok(w) <==> (w.len() > 0 && forall|i: int|
            0 <= i < w.len() ==> ('a' <= #[trigger] w[i] <= 'z' || 'A' <= w[i] <= 'Z')),
{
}

} // verus!
