//! An alphabet with its ordinals, a normalisation table, and the cipher over
//! them.

use crate::error::Error;
use crate::ordinal::{shifted, transform, Action, EncodeNum};
use crate::text::{chars_of, join_chars};
use std::collections::HashMap;
use vstd::arithmetic::div_mod::{lemma_small_mod, lemma_sub_mod_noop};
use vstd::prelude::*;
use vstd::relations::injective_on;
use vstd::set_lib::lemma_map_size;
use vstd::std_specs::hash::group_hash_axioms;

verus! {

broadcast use group_hash_axioms;

/// The index of the last occurrence of `c` in `s`, or -1 where there is none.
pub open spec fn last_index(s: Seq<char>, c: char) -> int
    decreases s.len(),
{
    if s.len() == 0 {
        -1
    } else if s.last() == c {
        s.len() - 1
    } else {
        last_index(s.drop_last(), c)
    }
}

/// The code point of a character, by which the encoding's tables are keyed.
pub open spec fn code(c: char) -> u32 {
    c as u32
}

/// The first character of `s`, from the left, that `alpha` does not hold.
pub open spec fn first_missing(alpha: Seq<char>, s: Seq<char>) -> Option<char>
    decreases s.len(),
{
    if s.len() == 0 {
        None
    } else {
        match first_missing(alpha, s.drop_last()) {
            Some(c) => Some(c),
            None => if alpha.contains(s.last()) {
                None
            } else {
                Some(s.last())
            },
        }
    }
}

/// Where `s[..n]` misses a character of `alpha`, the first one missed in
/// all of `s` is the first one missed in `s[..n]`.
pub proof fn lemma_first_missing_prefix(alpha: Seq<char>, s: Seq<char>, n: int)
    requires
        0 <= n <= s.len(),
        first_missing(alpha, s.subrange(0, n)) is Some,
    ensures
        first_missing(alpha, s) == first_missing(alpha, s.subrange(0, n)),
    decreases s.len() - n,
{
    if n < s.len() {
        assert(s.subrange(0, n + 1).drop_last() =~= s.subrange(0, n));
        lemma_first_missing_prefix(alpha, s, n + 1);
    } else {
        assert(s.subrange(0, n) =~= s);
    }
}

/// `first_missing` finds nothing exactly where every character is in `alpha`.
pub proof fn lemma_first_missing_none(alpha: Seq<char>, s: Seq<char>)
    ensures
        first_missing(alpha, s) is None <==> forall|i: int|
            0 <= i < s.len() ==> alpha.contains(#[trigger] s[i]),
    decreases s.len(),
{
    if s.len() > 0 {
        lemma_first_missing_none(alpha, s.drop_last());
        if first_missing(alpha, s) is None {
            assert forall|i: int| 0 <= i < s.len() implies alpha.contains(#[trigger] s[i]) by {
                if i < s.len() - 1 {
                    assert(s[i] == s.drop_last()[i]);
                }
            }
        }
        if forall|i: int| 0 <= i < s.len() ==> alpha.contains(#[trigger] s[i]) {
            assert forall|i: int| 0 <= i < s.drop_last().len() implies alpha.contains(
                #[trigger] s.drop_last()[i],
            ) by {
                assert(s[i] == s.drop_last()[i]);
            }
        }
    }
}

/// A character of `s` has a last index, at which it stands.
pub proof fn lemma_last_index(s: Seq<char>, c: char)
    requires
        s.contains(c),
    ensures
        0 <= last_index(s, c) < s.len(),
        s[last_index(s, c)] == c,
    decreases s.len(),
{
    if s.last() != c {
        let i = choose|i: int| 0 <= i < s.len() && s[i] == c;
        assert(s.drop_last()[i] == c);
        lemma_last_index(s.drop_last(), c);
    }
}

/// A string result and a sequence result that say the same thing.
pub open spec fn agrees(r: Result<String, Error>, t: Result<Seq<char>, Error>) -> bool {
    match (r, t) {
        (Ok(s), Ok(u)) => s@ == u,
        (Err(e), Err(f)) => e == f,
        _ => false,
    }
}

/// Distinct characters have distinct codes, and a code gives back its character.
pub proof fn lemma_code_injective(a: char, b: char)
    ensures
        code(a) == code(b) <==> a == b,
        code(a) as char == a,
{
}

/// An alphabet, whose characters have the ordinals 0, 1, 2, ... in the order
/// of insertion, and a table that maps characters to characters before they
/// are looked up in the alphabet.
#[derive(Debug)]
pub struct Encoding {
    char_number_map: HashMap<u32, EncodeNum>,
    number_char_map: Vec<char>,
    char_char_map: HashMap<u32, char>,
    size: usize,
}

impl Encoding {
    /// The characters inserted into the alphabet, in the order of insertion;
    /// the character at index `i` is the one that ordinal `i` stands for.
    pub closed spec fn alphabet(&self) -> Seq<char> {
        self.number_char_map@
    }

    /// The normalisation table: the character that each key is folded into.
    pub closed spec fn mapping(&self) -> Map<char, char> {
        Map::new(
            |c: char| self.char_char_map@.contains_key(code(c)),
            |c: char| self.char_char_map@[code(c)],
        )
    }

    /// The ordinal of `c`: the last position at which it was inserted.
    pub open spec fn ordinal_of(&self, c: char) -> int {
        last_index(self.alphabet(), c)
    }

    /// Whether `c` has an ordinal.
    pub open spec fn is_member(&self, c: char) -> bool {
        self.alphabet().contains(c)
    }

    /// What `c` is normalised to: its entry in the table, or itself.
    pub open spec fn normalized(&self, c: char) -> char {
        if self.mapping().contains_key(c) {
            self.mapping()[c]
        } else {
            c
        }
    }

    /// `message` shifted character by character by `key`, repeated as often
    /// as needed, with every character in the alphabet and the key not empty.
    pub open spec fn ciphered(&self, message: Seq<char>, key: Seq<char>, action: Action) -> Seq<
        char,
    > {
        Seq::new(
            message.len(),
            |i: int|
                self.alphabet()[shifted(
                    self.ordinal_of(message[i]),
                    self.ordinal_of(key[i % (key.len() as int)]),
                    self.alphabet().len() as int,
                    action,
                )],
        )
    }

    /// What transforming `message` by `key` gives: the first key character
    /// outside the alphabet, an empty key, or the first message character
    /// outside the alphabet fails, in that order; otherwise the cipher text.
    pub open spec fn transformed(&self, message: Seq<char>, key: Seq<char>, action: Action) -> Result<
        Seq<char>,
        Error,
    > {
        match first_missing(self.alphabet(), key) {
            Some(c) => Err(Error::CharNotInEncoding(c)),
            None => if key.len() == 0 {
                Err(Error::EmptyKey)
            } else {
                match first_missing(self.alphabet(), message) {
                    Some(c) => Err(Error::CharNotInEncoding(c)),
                    None => Ok(self.ciphered(message, key, action)),
                }
            },
        }
    }

    /// The internal tables agree with each other.
    pub closed spec fn wf(&self) -> bool {
        &&& self.size == self.number_char_map@.len()
        &&& self.char_number_map@.dom() == self.number_char_map@.map_values(|c: char| code(c)).to_set()
        &&& forall|c: char|
            #![trigger self.char_number_map@[code(c)]]
            self.number_char_map@.contains(c) ==> self.char_number_map@[code(c)].0 == last_index(
                self.number_char_map@,
                c,
            )
        &&& forall|k: u32|
            #![trigger self.char_char_map@.contains_key(k)]
            self.char_char_map@.contains_key(k) ==> code(k as char) == k
    }

    /// An encoding with an empty alphabet and an empty table.
    pub fn new() -> (r: Self)
        ensures
            r.wf(),
            r.alphabet() == Seq::<char>::empty(),
            r.mapping() == Map::<char, char>::empty(),
    {
        let r = Encoding {
            char_number_map: HashMap::new(),
            number_char_map: Vec::new(),
            char_char_map: HashMap::new(),
            size: 0,
        };
        assert(r.char_number_map@.dom() =~= r.number_char_map@.map_values(|c: char| code(c)).to_set());
        assert(r.mapping() =~= Map::<char, char>::empty());
        r
    }

    /// The number of characters in the alphabet, the modulus of the cipher.
    pub fn len(&self) -> (r: usize)
        requires
            self.wf(),
        ensures
            r == self.alphabet().len(),
    {
        self.size
    }

    /// Appends `c` to the alphabet with the next ordinal. A character that
    /// was inserted before keeps its old position in the alphabet, but its
    /// ordinal becomes the new one.
    pub fn insert_char(&mut self, c: char)
        requires
            old(self).wf(),
            old(self).alphabet().len() < usize::MAX,
        ensures
            final(self).wf(),
            final(self).alphabet() == old(self).alphabet().push(c),
            final(self).mapping() == old(self).mapping(),
    {
        let ghost a = self.number_char_map@;
        let map_number = EncodeNum(self.size as u64);
        self.char_number_map.insert(c as u32, map_number);
        self.number_char_map.push(c);
        self.size = self.size + 1;
        proof {
            let f = |x: char| code(x);
            let a2 = self.number_char_map@;
            assert(a2.drop_last() =~= a);
            assert(a2.map_values(f) =~= a.map_values(f).push(code(c)));
            a.map_values(f).lemma_push_to_set_commute(code(c));
            assert(self.char_number_map@.dom() =~= a2.map_values(f).to_set());
            assert forall|d: char| #[trigger] a2.contains(d) implies self.char_number_map@[code(
                d,
            )].0 == last_index(a2, d) by {
                lemma_code_injective(c, d);
                if d != c {
                    let i = choose|i: int| 0 <= i < a2.len() && a2[i] == d;
                    assert(a.contains(d)) by {
                        assert(a[i] == d);
                    }
                    assert(last_index(a2, d) == last_index(a, d));
                } else {
                    assert(last_index(a2, d) == a.len());
                }
            }
        }
    }

    /// Records that `x` is normalised to `y`, replacing what `x` was
    /// normalised to before.
    pub fn insert_map(&mut self, x: char, y: char)
        requires
            old(self).wf(),
        ensures
            final(self).wf(),
            final(self).alphabet() == old(self).alphabet(),
            final(self).mapping() == old(self).mapping().insert(x, y),
    {
        self.char_char_map.insert(x as u32, y);
        proof {
            assert forall|z: char| true implies (#[trigger] code(z) == code(x)) == (z == x) by {
                lemma_code_injective(z, x);
            }
            lemma_code_injective(x, x);
            assert(self.mapping() =~= old(self).mapping().insert(x, y));
        }
    }

    /// Whether `c` is in the alphabet.
    pub fn char_in_working_set(&self, c: &char) -> (r: bool)
        requires
            self.wf(),
        ensures
            r == self.is_member(*c),
    {
        let r = self.char_number_map.contains_key(&(*c as u32));
        proof {
            self.lemma_code_in_domain(*c);
        }
        r
    }

    /// The ordinal of `c`, which fails where `c` is not in the alphabet.
    pub fn char_to_number(&self, c: &char) -> (r: Result<EncodeNum, Error>)
        requires
            self.wf(),
        ensures
            self.is_member(*c) ==> r == Ok::<EncodeNum, Error>(EncodeNum(self.ordinal_of(*c) as u64)),
            !self.is_member(*c) ==> r == Err::<EncodeNum, Error>(Error::CharNotInEncoding(*c)),
            self.alphabet().len() == 0 ==> r is Err,
    {
        proof {
            self.lemma_code_in_domain(*c);
        }
        match self.char_number_map.get(&(*c as u32)) {
            Some(n) => Ok(*n),
            None => Err(Error::CharNotInEncoding(*c)),
        }
    }

    /// The character that ordinal `n` stands for, which fails where `n` is
    /// not below the size of the alphabet.
    pub fn number_to_char(&self, n: &EncodeNum) -> (r: Result<char, Error>)
        requires
            self.wf(),
        ensures
            n.0 < self.alphabet().len() ==> r == Ok::<char, Error>(self.alphabet()[n.0 as int]),
            n.0 >= self.alphabet().len() ==> r == Err::<char, Error>(Error::NumberNotInEncoding(*n)),
            self.alphabet().len() == 0 ==> r is Err,
    {
        if n.0 < self.size as u64 {
            Ok(self.number_char_map[n.0 as usize])
        } else {
            Err(Error::NumberNotInEncoding(*n))
        }
    }

    /// What `c` is normalised to: its entry in the table, or `c` itself.
    pub fn map_char(&self, c: &char) -> (r: char)
        requires
            self.wf(),
        ensures
            r == self.normalized(*c),
    {
        match self.char_char_map.get(&(*c as u32)) {
            Some(d) => *d,
            None => *c,
        }
    }

    /// The number of distinct characters in the alphabet, each of which has
    /// an ordinal.
    pub fn char_count(&self) -> (r: usize)
        requires
            self.wf(),
        ensures
            r == self.alphabet().to_set().len(),
    {
        proof {
            let f = |x: char| code(x);
            let a = self.number_char_map@;
            a.lemma_to_set_map_commutes(f);
            assert forall|x: char, y: char| #[trigger] f(x) == #[trigger] f(y) implies x == y by {
                lemma_code_injective(x, y);
            }
            assert(injective_on(f, a.to_set()));
            lemma_map_size(a.to_set(), a.map_values(f).to_set(), f);
        }
        self.char_number_map.len()
    }

    /// The number of ordinals that stand for a character.
    pub fn ordinal_count(&self) -> (r: usize)
        requires
            self.wf(),
        ensures
            r == self.alphabet().len(),
    {
        self.number_char_map.len()
    }

    /// The number of characters that the table normalises.
    pub fn mapping_count(&self) -> (r: usize)
        requires
            self.wf(),
        ensures
            r == self.mapping().dom().len(),
    {
        proof {
            let m = self.char_char_map@;
            let f = |x: char| code(x);
            let g = |k: u32| k as char;
            m.dom().lemma_map_finite(g);
            assert(self.mapping().dom() =~= m.dom().map(g)) by {
                assert forall|c: char| #[trigger] self.mapping().dom().contains(c) implies m.dom().map(g).contains(c) by {
                    assert(m.contains_key(code(c)));
                    lemma_code_injective(c, c);
                    assert(g(code(c)) == c);
                }
            }
            assert(m.dom() =~= self.mapping().dom().map(f)) by {
                assert forall|k: u32| #[trigger] m.dom().contains(k) implies self.mapping().dom().map(f).contains(k) by {
                    assert(code(k as char) == k);
                    assert(self.mapping().dom().contains(k as char));
                }
            }
            assert forall|x: char, y: char| #[trigger] f(x) == #[trigger] f(y) implies x == y by {
                lemma_code_injective(x, y);
            }
            assert(injective_on(f, self.mapping().dom()));
            lemma_map_size(self.mapping().dom(), m.dom(), f);
        }
        self.char_char_map.len()
    }

    /// The ordinals of the characters of `s`, which fails at the first
    /// character that is not in the alphabet.
    pub fn vectorize_string(&self, s: &String) -> (r: Result<Vec<EncodeNum>, Error>)
        requires
            self.wf(),
        ensures
            match first_missing(self.alphabet(), s@) {
                Some(c) => r == Err::<Vec<EncodeNum>, Error>(Error::CharNotInEncoding(c)),
                None => r matches Ok(v) && v@ == s@.map_values(
                    |c: char| EncodeNum(self.ordinal_of(c) as u64),
                ),
            },
    {
        let cs = chars_of(s.as_str());
        let mut out: Vec<EncodeNum> = Vec::new();
        let mut i: usize = 0;
        while i < cs.len()
            invariant
                self.wf(),
                cs@ == s@,
                i <= cs.len(),
                first_missing(self.alphabet(), cs@.subrange(0, i as int)) is None,
                out@ == cs@.subrange(0, i as int).map_values(
                    |c: char| EncodeNum(self.ordinal_of(c) as u64),
                ),
            decreases cs.len() - i,
        {
            let ghost pre = cs@.subrange(0, i as int);
            let ghost next = cs@.subrange(0, i + 1);
            assert(next.drop_last() =~= pre);
            match self.char_to_number(&cs[i]) {
                Ok(n) => {
                    out.push(n);
                },
                Err(e) => {
                    proof {
                        lemma_first_missing_prefix(self.alphabet(), cs@, i as int + 1);
                    }
                    return Err(e);
                },
            }
            i = i + 1;
            assert(out@ =~= next.map_values(|c: char| EncodeNum(self.ordinal_of(c) as u64)));
        }
        assert(cs@.subrange(0, i as int) =~= s@);
        Ok(out)
    }

    /// Shifts each character of `message` by the character of `keytext` at
    /// the same position, the key being repeated as often as needed.
    pub fn transform_message(&self, message: &String, keytext: &String, action: Action) -> (r:
        Result<String, Error>)
        requires
            self.wf(),
        ensures
            agrees(r, self.transformed(message@, keytext@, action)),
    {
        let key = match self.vectorize_string(keytext) {
            Ok(v) => v,
            Err(e) => return Err(e),
        };
        let keysize = key.len();
        if keysize == 0 {
            return Err(Error::EmptyKey);
        }
        proof {
            lemma_first_missing_none(self.alphabet(), keytext@);
            assert(self.alphabet().contains(keytext@[0]));
        }
        let cs = chars_of(message.as_str());
        let ghost whole = self.ciphered(message@, keytext@, action);
        let mut out: Vec<char> = Vec::new();
        let mut i: usize = 0;
        while i < cs.len()
            invariant
                self.wf(),
                cs@ == message@,
                i <= cs.len(),
                keysize == key@.len(),
                keysize > 0,
                self.alphabet().len() > 0,
                keysize == keytext@.len(),
                key@ == keytext@.map_values(|c: char| EncodeNum(self.ordinal_of(c) as u64)),
                first_missing(self.alphabet(), keytext@) is None,
                first_missing(self.alphabet(), cs@.subrange(0, i as int)) is None,
                whole == self.ciphered(message@, keytext@, action),
                out@ == whole.subrange(0, i as int),
            decreases cs.len() - i,
        {
            let ghost pre = cs@.subrange(0, i as int);
            let ghost next = cs@.subrange(0, i + 1);
            assert(next.drop_last() =~= pre);
            let message_num = match self.char_to_number(&cs[i]) {
                Ok(n) => n,
                Err(e) => {
                    proof {
                        lemma_first_missing_prefix(self.alphabet(), cs@, i as int + 1);
                    }
                    return Err(e);
                },
            };
            let key_num = key[i % keysize];
            proof {
                let j = (i % keysize) as int;
                lemma_first_missing_none(self.alphabet(), keytext@);
                lemma_last_index(self.alphabet(), keytext@[j]);
                lemma_last_index(self.alphabet(), cs@[i as int]);
            }
            let cipher_num = transform(&message_num, &key_num, &self.size, &action);
            let c = match self.number_to_char(&cipher_num) {
                Ok(c) => c,
                Err(e) => return Err(e),
            };
            out.push(c);
            i = i + 1;
            assert(out@ =~= whole.subrange(0, i as int));
        }
        assert(cs@.subrange(0, i as int) =~= message@);
        assert(whole.subrange(0, i as int) =~= whole);
        Ok(join_chars(&out))
    }

    /// The cipher text of `message` under `keytext`.
    pub fn encrypt(&self, message: &String, keytext: &String) -> (r: Result<String, Error>)
        requires
            self.wf(),
        ensures
            agrees(r, self.transformed(message@, keytext@, Action::Encrypt)),
            r matches Ok(c) ==> c@.len() == message@.len(),
            keytext@.len() == 0 ==> r == Err::<String, Error>(Error::EmptyKey),
    {
        self.transform_message(message, keytext, Action::Encrypt)
    }

    /// The plain text of `message` under `keytext`.
    pub fn decrypt(&self, message: &String, keytext: &String) -> (r: Result<String, Error>)
        requires
            self.wf(),
        ensures
            agrees(r, self.transformed(message@, keytext@, Action::Decrypt)),
            r matches Ok(c) ==> c@.len() == message@.len(),
            keytext@.len() == 0 ==> r == Err::<String, Error>(Error::EmptyKey),
    {
        self.transform_message(message, keytext, Action::Decrypt)
    }

    /// `s` with each character normalised.
    pub open spec fn normalized_text(&self, s: Seq<char>) -> Seq<char> {
        s.map_values(|c: char| self.normalized(c))
    }

    /// The characters of `s` that are in the alphabet, in their order.
    pub open spec fn filtered_text(&self, s: Seq<char>) -> Seq<char> {
        s.filter(|c: char| self.is_member(c))
    }

    /// `s` with each character normalised.
    pub fn map_string(&self, s: &String) -> (r: String)
        requires
            self.wf(),
        ensures
            r@ == self.normalized_text(s@),
    {
        let cs = chars_of(s.as_str());
        let mut out: Vec<char> = Vec::new();
        let mut i: usize = 0;
        while i < cs.len()
            invariant
                self.wf(),
                cs@ == s@,
                i <= cs.len(),
                out@ == self.normalized_text(cs@.subrange(0, i as int)),
            decreases cs.len() - i,
        {
            out.push(self.map_char(&cs[i]));
            i = i + 1;
            assert(out@ =~= self.normalized_text(cs@.subrange(0, i as int)));
        }
        assert(cs@.subrange(0, i as int) =~= s@);
        join_chars(&out)
    }

    /// The characters of `s` that are in the alphabet, in their order.
    pub fn filter_string(&self, s: &String) -> (r: String)
        requires
            self.wf(),
        ensures
            r@ == self.filtered_text(s@),
    {
        let cs = chars_of(s.as_str());
        let mut out: Vec<char> = Vec::new();
        let mut i: usize = 0;
        while i < cs.len()
            invariant
                self.wf(),
                cs@ == s@,
                i <= cs.len(),
                out@ == self.filtered_text(cs@.subrange(0, i as int)),
            decreases cs.len() - i,
        {
            let ghost pre = cs@.subrange(0, i as int);
            proof {
                assert(cs@.subrange(0, i + 1) =~= pre.push(cs@[i as int]));
                pre.lemma_filter_push(cs@[i as int], |c: char| self.is_member(c));
            }
            if self.char_in_working_set(&cs[i]) {
                out.push(cs[i]);
            }
            i = i + 1;
        }
        assert(cs@.subrange(0, i as int) =~= s@);
        join_chars(&out)
    }

    /// `s` normalised, then cut down to the alphabet: how plain text and
    /// key text are prepared for the cipher.
    pub fn map_filter_string(&self, s: &String) -> (r: String)
        requires
            self.wf(),
        ensures
            r@ == self.filtered_text(self.normalized_text(s@)),
    {
        let mapped_string = self.map_string(s);
        let filtered_string = self.filter_string(&mapped_string);
        filtered_string
    }

    /// A character of the alphabet has an ordinal below the size of the
    /// alphabet, and that ordinal stands for the character again.
    pub proof fn lemma_ordinal_round_trip(&self, c: char)
        requires
            self.wf(),
            self.is_member(c),
        ensures
            0 <= self.ordinal_of(c) < self.alphabet().len(),
            self.alphabet()[self.ordinal_of(c)] == c,
    {
        lemma_last_index(self.alphabet(), c);
    }

    /// Decrypting the cipher text of a message under the same key gives back
    /// the message, where the alphabet holds no character twice and the key
    /// and the message are made of its characters, the key of at least one.
    pub proof fn lemma_round_trip(&self, message: Seq<char>, key: Seq<char>)
        requires
            self.wf(),
            self.alphabet().no_duplicates(),
            key.len() > 0,
            forall|i: int| 0 <= i < key.len() ==> self.is_member(#[trigger] key[i]),
            forall|i: int| 0 <= i < message.len() ==> self.is_member(#[trigger] message[i]),
        ensures
            self.transformed(message, key, Action::Encrypt) matches Ok(c) && self.transformed(
                c,
                key,
                Action::Decrypt,
            ) == Ok::<Seq<char>, Error>(message),
    {
        let a = self.alphabet();
        let n = a.len() as int;
        lemma_first_missing_none(a, key);
        lemma_first_missing_none(a, message);
        lemma_last_index(a, key[0]);
        let c = self.ciphered(message, key, Action::Encrypt);
        assert forall|i: int| 0 <= i < c.len() implies #[trigger] a.contains(c[i]) && self.ordinal_of(
            c[i],
        ) == shifted(
            self.ordinal_of(message[i]),
            self.ordinal_of(key[i % (key.len() as int)]),
            n,
            Action::Encrypt,
        ) by {
            let k = self.ordinal_of(key[i % (key.len() as int)]);
            let m = self.ordinal_of(message[i]);
            let x = shifted(m, k, n, Action::Encrypt);
            assert(0 <= x < n);
            assert(c[i] == a[x]);
            lemma_last_index(a, c[i]);
        }
        lemma_first_missing_none(a, c);
        let d = self.ciphered(c, key, Action::Decrypt);
        assert forall|i: int| 0 <= i < message.len() implies #[trigger] d[i] == message[i] by {
            let k = self.ordinal_of(key[i % (key.len() as int)]);
            let m = self.ordinal_of(message[i]);
            lemma_last_index(a, key[i % (key.len() as int)]);
            lemma_last_index(a, message[i]);
            lemma_sub_mod_noop(m + k, k, n);
            lemma_small_mod(k as nat, n as nat);
            lemma_small_mod(m as nat, n as nat);
            assert(shifted(shifted(m, k, n, Action::Encrypt), k, n, Action::Decrypt) == m);
        }
        assert(d =~= message);
    }

    /// Normalising text in which no character has an entry in the table
    /// leaves it as it is, so normalising it twice does too.
    pub proof fn lemma_normalize_fixed(&self, s: Seq<char>)
        requires
            forall|i: int| 0 <= i < s.len() ==> !self.mapping().contains_key(#[trigger] s[i]),
        ensures
            self.normalized_text(s) == s,
            self.normalized_text(self.normalized_text(s)) == self.normalized_text(s),
    {
        assert(self.normalized_text(s) =~= s);
    }

    /// Filtering keeps exactly the characters of `s` that are in the
    /// alphabet: each kept character is a member, each member of `s` is kept,
    /// and nothing is added.
    pub proof fn lemma_filter_members(&self, s: Seq<char>)
        ensures
            self.filtered_text(s).len() <= s.len(),
            forall|i: int|
                0 <= i < self.filtered_text(s).len() ==> self.is_member(
                    #[trigger] self.filtered_text(s)[i],
                ) && s.contains(self.filtered_text(s)[i]),
            forall|c: char|
                self.is_member(c) && s.contains(c) ==> #[trigger] self.filtered_text(s).contains(c),
    {
        let p = |c: char| self.is_member(c);
        let f = self.filtered_text(s);
        s.lemma_filter_len(p);
        assert forall|i: int| 0 <= i < f.len() implies self.is_member(#[trigger] f[i]) && s.contains(
            f[i],
        ) by {
            s.lemma_filter_pred(p, i);
            assert(f.contains(f[i]));
            s.lemma_filter_contains_rev(p, f[i]);
        }
        assert forall|c: char| self.is_member(c) && s.contains(c) implies #[trigger] f.contains(c) by {
            let i = choose|i: int| 0 <= i < s.len() && s[i] == c;
            s.lemma_filter_contains(p, i);
        }
    }

    proof fn lemma_code_in_domain(&self, c: char)
        requires
            self.wf(),
        ensures
            self.char_number_map@.contains_key(code(c)) == self.is_member(c),
    {
        let f = |x: char| code(x);
        let a = self.number_char_map@;
        if self.char_number_map@.contains_key(code(c)) {
            assert(a.map_values(f).contains(code(c)));
            let i = choose|i: int| 0 <= i < a.len() && a.map_values(f)[i] == code(c);
            lemma_code_injective(a[i], c);
            assert(a[i] == c);
        }
        if self.is_member(c) {
            let i = choose|i: int| 0 <= i < a.len() && a[i] == c;
            assert(a.map_values(f)[i] == code(c));
        }
    }
}

} // verus!

verus! {

/// The text that the cipher is given: `s` as it is in strict mode, else
/// normalised and cut down to the alphabet.
pub open spec fn prepared(e: &Encoding, s: Seq<char>, strict: bool) -> Seq<char> {
    if strict {
        s
    } else {
        e.filtered_text(e.normalized_text(s))
    }
}

/// Encrypts or decrypts `input` under `key`. Outside strict mode both are
/// first normalised and cut down to the alphabet, so that only a key with no
/// character left fails; in strict mode a character outside the alphabet
/// fails.
pub fn transcode(encoding: &Encoding, action: Action, key: &String, input: &String, strict: bool) -> (r:
    Result<String, Error>)
    requires
        encoding.wf(),
    ensures
        agrees(
            r,
            encoding.transformed(
                prepared(encoding, input@, strict),
                prepared(encoding, key@, strict),
                action,
            ),
        ),
{
    if strict {
        encoding.transform_message(input, key, action)
    } else {
        let key = encoding.map_filter_string(key);
        let input = encoding.map_filter_string(input);
        encoding.transform_message(&input, &key, action)
    }
}

} // verus!
