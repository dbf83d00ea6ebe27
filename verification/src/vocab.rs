//! The symbolic vocabulary of the key-value recall task.

use crate::text;
use crate::text::{chars_of, decimal_digits, parse_number, push_chars, spells, split_words};
use crate::tokenizer;
use crate::tokenizer::{TokenId, Tokenizer};
use vstd::prelude::*;
use vstd::slice::slice_subrange;

verus! {

pub const PAD: TokenId = 0;

pub const BOS: TokenId = 1;

pub const EOS: TokenId = 2;

pub const SEP: TokenId = 3;

pub const QUERY: TokenId = 4;

pub const MASK: TokenId = 5;

pub const NUM_SPECIAL: TokenId = 6;

/// Symbolic vocabulary for the key-value recall task:
/// `[PAD, BOS, EOS, SEP, QUERY, MASK, K0..K{num_keys-1}, V0..V{num_values-1}]`.
#[derive(Debug, Clone, Copy)]
pub struct KvVocab {
    pub num_keys: usize,
    pub num_values: usize,
}

/// The name of a special token.
pub open spec fn special_name(id: TokenId) -> Seq<char> {
    if id == PAD {
        "PAD"@
    } else if id == BOS {
        "BOS"@
    } else if id == EOS {
        "EOS"@
    } else if id == SEP {
        "SEP"@
    } else if id == QUERY {
        "QUERY"@
    } else {
        "MASK"@
    }
}

/// The special token of that name, if it is one.
pub open spec fn special_id(name: Seq<char>) -> Option<TokenId> {
    if name == "PAD"@ {
        Some(PAD)
    } else if name == "BOS"@ {
        Some(BOS)
    } else if name == "EOS"@ {
        Some(EOS)
    } else if name == "SEP"@ {
        Some(SEP)
    } else if name == "QUERY"@ {
        Some(QUERY)
    } else if name == "MASK"@ {
        Some(MASK)
    } else {
        None
    }
}

impl KvVocab {
    /// The first id after the keys.
    pub open spec fn key_end(self) -> int {
        NUM_SPECIAL + self.num_keys
    }

    /// The first id after the values.
    pub open spec fn value_end(self) -> int {
        self.key_end() + self.num_values
    }

    /// Every id of the vocabulary is a token id.
    pub open spec fn ids_fit(self) -> bool {
        self.value_end() <= u32::MAX
    }

    pub open spec fn holds_key(self, id: TokenId) -> bool {
        NUM_SPECIAL <= id < self.key_end()
    }

    pub open spec fn holds_value(self, id: TokenId) -> bool {
        self.key_end() <= id < self.value_end()
    }

    /// The ranges that decide the name of `id` end at token ids.
    pub open spec fn nameable(self, id: TokenId) -> bool {
        id >= NUM_SPECIAL ==> self.key_end() <= u32::MAX && (id >= self.key_end()
            ==> self.value_end() <= u32::MAX)
    }

    /// The name of a token.
    pub open spec fn name_of(self, id: TokenId) -> Seq<char> {
        if id < NUM_SPECIAL {
            special_name(id)
        } else if self.holds_key(id) {
            seq!['K'] + text::decimal((id - NUM_SPECIAL) as nat)
        } else if self.holds_value(id) {
            seq!['V'] + text::decimal((id - self.key_end()) as nat)
        } else {
            "<invalid:"@ + text::decimal(id as nat) + seq!['>']
        }
    }

    /// The id that a name stands for, if any.
    pub open spec fn id_of(self, name: Seq<char>) -> Option<int> {
        match special_id(name) {
            Some(id) => Some(id as int),
            None => match text::parsed(name.skip(1)) {
                Some(n) => if name[0] == 'K' && n < self.num_keys {
                    Some(NUM_SPECIAL + n)
                } else if name[0] == 'V' && n < self.num_values {
                    Some(self.key_end() + n)
                } else {
                    None
                },
                None => None,
            },
        }
    }

    /// The names that can be looked up: the special ones, and those that start
    /// with an ASCII character and do not stand for an id beyond all token ids.
    pub open spec fn can_look_up(self, name: Seq<char>) -> bool {
        special_id(name) is None ==> {
            &&& name.len() > 0
            &&& (name[0] as int) < 128
            &&& self.id_of(name) is Some ==> self.id_of(name)->0 <= u32::MAX
        }
    }

    pub fn new(num_keys: usize, num_values: usize) -> (r: KvVocab)
        ensures
            r == (KvVocab { num_keys, num_values }),
    {
        KvVocab { num_keys, num_values }
    }

    pub fn key_id(&self, k: usize) -> (r: TokenId)
        requires
            k < self.num_keys,
            NUM_SPECIAL + k <= u32::MAX,
        ensures
            r == NUM_SPECIAL + k,
            r == 6 + k,
    {
        NUM_SPECIAL + k as TokenId
    }

    pub fn value_id(&self, v: usize) -> (r: TokenId)
        requires
            v < self.num_values,
            self.key_end() + v <= u32::MAX,
        ensures
            r == self.key_end() + v,
            r == 6 + self.num_keys + v,
    {
        NUM_SPECIAL + self.num_keys as TokenId + v as TokenId
    }

    pub fn is_key(&self, id: TokenId) -> (r: bool)
        requires
            self.key_end() <= u32::MAX,
        ensures
            r == self.holds_key(id),
            r == (6 <= id < 6 + self.num_keys),
    {
        NUM_SPECIAL <= id && id < NUM_SPECIAL + self.num_keys as TokenId
    }

    pub fn is_value(&self, id: TokenId) -> (r: bool)
        requires
            self.value_end() <= u32::MAX,
        ensures
            r == self.holds_value(id),
            r == (6 + self.num_keys <= id < 6 + self.num_keys + self.num_values),
    {
        let low: TokenId = NUM_SPECIAL + self.num_keys as TokenId;
        low <= id && id < low + self.num_values as TokenId
    }

    fn name_chars(&self, id: TokenId) -> (r: Vec<char>)
        requires
            self.nameable(id),
        ensures
            r@ == self.name_of(id),
    {
        if id == PAD {
            return chars_of("PAD");
        }
        if id == BOS {
            return chars_of("BOS");
        }
        if id == EOS {
            return chars_of("EOS");
        }
        if id == SEP {
            return chars_of("SEP");
        }
        if id == QUERY {
            return chars_of("QUERY");
        }
        if id == MASK {
            return chars_of("MASK");
        }
        let mut out: Vec<char> = Vec::new();
        if self.is_key(id) {
            out.push('K');
            let mut digits: Vec<char> = decimal_digits(id - NUM_SPECIAL);
            out.append(&mut digits);
        } else if self.is_value(id) {
            out.push('V');
            let mut digits: Vec<char> = decimal_digits(
                id - NUM_SPECIAL - self.num_keys as TokenId,
            );
            out.append(&mut digits);
        } else {
            out = chars_of("<invalid:");
            let mut digits: Vec<char> = decimal_digits(id);
            out.append(&mut digits);
            out.push('>');
        }
        out
    }

    pub fn token_name(&self, id: TokenId) -> (r: String)
        requires
            self.nameable(id),
        ensures
            r@ == self.name_of(id),
    {
        let letters: Vec<char> = self.name_chars(id);
        let mut out: String = String::new();
        push_chars(&mut out, letters.as_slice());
        out
    }

    fn id_of_chars(&self, name: &[char]) -> (r: Option<TokenId>)
        requires
            self.can_look_up(name@),
        ensures
            match r {
                Some(id) => self.id_of(name@) == Some(id as int),
                None => self.id_of(name@) is None,
            },
    {
        if spells(name, "PAD") {
            return Some(PAD);
        }
        if spells(name, "BOS") {
            return Some(BOS);
        }
        if spells(name, "EOS") {
            return Some(EOS);
        }
        if spells(name, "SEP") {
            return Some(SEP);
        }
        if spells(name, "QUERY") {
            return Some(QUERY);
        }
        if spells(name, "MASK") {
            return Some(MASK);
        }
        let number: &[char] = slice_subrange(name, 1, name.len());
        match parse_number(number) {
            Some(n) => {
                if name[0] == 'K' && n < self.num_keys {
                    Some(self.key_id(n))
                } else if name[0] == 'V' && n < self.num_values {
                    Some(self.value_id(n))
                } else {
                    None
                }
            },
            None => None,
        }
    }

    /// The id of a symbolic token name.
    pub fn id_of_name(&self, name: &str) -> (r: Option<TokenId>)
        requires
            self.can_look_up(name@),
        ensures
            match r {
                Some(id) => self.id_of(name@) == Some(id as int),
                None => self.id_of(name@) is None,
            },
    {
        let letters: Vec<char> = chars_of(name);
        self.id_of_chars(letters.as_slice())
    }
}

impl Tokenizer for KvVocab {
    open spec fn size(&self) -> nat {
        self.value_end() as nat
    }

    open spec fn can_encode(&self, text: Seq<char>) -> bool {
        forall|i: int|
            0 <= i < text::words(text).len() ==> self.can_look_up(#[trigger] text::words(text)[i])
    }

    open spec fn encoded(&self, text: Seq<char>) -> Seq<TokenId> {
        text::words(text).filter_map(|w: Seq<char>| token_of(*self, w))
    }

    open spec fn can_decode(&self, tokens: Seq<TokenId>) -> bool {
        forall|i: int| 0 <= i < tokens.len() ==> self.nameable(#[trigger] tokens[i])
    }

    open spec fn decoded(&self, tokens: Seq<TokenId>) -> Seq<char> {
        text::joined(tokens.map_values(|t: TokenId| self.name_of(t)))
    }

    open spec fn pad(&self) -> TokenId {
        PAD
    }

    open spec fn bos(&self) -> Option<TokenId> {
        Some(BOS)
    }

    open spec fn eos(&self) -> Option<TokenId> {
        Some(EOS)
    }

    open spec fn mask(&self) -> Option<TokenId> {
        Some(MASK)
    }

    fn vocab_size(&self) -> (r: usize) {
        NUM_SPECIAL as usize + self.num_keys + self.num_values
    }

    /// Encodes whitespace-separated symbolic token names ("BOS K3 V1 ...").
    fn encode(&self, text: &str) -> (r: Vec<TokenId>) {
        let letters: Vec<char> = chars_of(text);
        let names: Vec<Vec<char>> = split_words(letters.as_slice());
        let ghost f = |w: Seq<char>| token_of(*self, w);
        let ghost spelled = text::words(text@);
        let mut out: Vec<TokenId> = Vec::new();
        let mut i: usize = 0;
        while i < names.len()
            invariant
                i <= names.len(),
                f == (|w: Seq<char>| token_of(*self, w)),
                spelled == text::words(text@),
                names@.map_values(|w: Vec<char>| w@) == spelled,
                self.can_encode(text@),
                out@ =~= spelled.take(i as int).filter_map(f),
            decreases names.len() - i,
        {
            proof {
                spelled.lemma_filter_map_take_succ(f, i as int);
            }
            match self.id_of_chars(names[i].as_slice()) {
                Some(id) => out.push(id),
                None => {},
            }
            i = i + 1;
        }
        assert(spelled.take(i as int) =~= spelled);
        out
    }

    fn decode(&self, tokens: &[TokenId]) -> (r: String) {
        let ghost f = |t: TokenId| self.name_of(t);
        let ghost names = tokens@.map_values(f);
        let mut out: String = String::new();
        let mut i: usize = 0;
        while i < tokens.len()
            invariant
                i <= tokens.len(),
                f == (|t: TokenId| self.name_of(t)),
                names == tokens@.map_values(f),
                self.can_decode(tokens@),
                out@ == text::joined(names.take(i as int)),
            decreases tokens.len() - i,
        {
            let name: Vec<char> = self.name_chars(tokens[i]);
            if i > 0 {
                out.push(' ');
            }
            push_chars(&mut out, name.as_slice());
            proof {
                let longer = names.take(i + 1);
                assert(longer.drop_last() =~= names.take(i as int));
            }
            i = i + 1;
        }
        assert(names.take(i as int) =~= names);
        out
    }

    fn pad_id(&self) -> (r: TokenId) {
        PAD
    }

    fn bos_id(&self) -> (r: Option<TokenId>) {
        Some(BOS)
    }

    fn eos_id(&self) -> (r: Option<TokenId>) {
        Some(EOS)
    }

    fn mask_id(&self) -> (r: Option<TokenId>) {
        Some(MASK)
    }
}

/// The id of a name as a token id.
pub open spec fn token_of(vocab: KvVocab, name: Seq<char>) -> Option<TokenId> {
    match vocab.id_of(name) {
        Some(id) => Some(id as TokenId),
        None => None,
    }
}

/// Special tokens, keys and values do not share ids.
pub proof fn token_kinds_are_disjoint(vocab: KvVocab, id: TokenId)
    ensures
        !(vocab.holds_key(id) && vocab.holds_value(id)),
        id < NUM_SPECIAL ==> !vocab.holds_key(id) && !vocab.holds_value(id),
        id < vocab.size() <==> id < NUM_SPECIAL || vocab.holds_key(id) || vocab.holds_value(id),
{
}

/// The name of a token is one word and can be looked up. It stands for that token
/// where the vocabulary holds it, and for none where it does not.
pub proof fn name_looks_up(vocab: KvVocab, id: TokenId)
    requires
        vocab.ids_fit(),
    ensures
        text::is_word(vocab.name_of(id)),
        vocab.can_look_up(vocab.name_of(id)),
        vocab.id_of(vocab.name_of(id)) == if id < vocab.size() {
            Some(id as int)
        } else {
            None
        },
{
    reveal_strlit("PAD");
    reveal_strlit("BOS");
    reveal_strlit("EOS");
    reveal_strlit("SEP");
    reveal_strlit("QUERY");
    reveal_strlit("MASK");
    assert("PAD"@[0] == 'P' && "BOS"@[0] == 'B' && "EOS"@[0] == 'E' && "SEP"@[0] == 'S'
        && "QUERY"@[0] == 'Q' && "MASK"@[0] == 'M');
    let name = vocab.name_of(id);
    if id < NUM_SPECIAL {
        assert forall|i: int| 0 <= i < name.len() implies !text::white_space(
            #[trigger] name[i],
        ) by {
            if id == PAD {
                assert(name[i] == "PAD"@[i]);
            }
        }
        assert(special_id(name) == Some(id));
    } else if id < vocab.size() {
        let n: nat = if vocab.holds_key(id) {
            (id - NUM_SPECIAL) as nat
        } else {
            (id - vocab.key_end()) as nat
        };
        let letter = if vocab.holds_key(id) {
            'K'
        } else {
            'V'
        };
        let digits = text::decimal(n);
        text::decimal_reads_back(n);
        text::decimal_parses(n);
        assert(name == seq![letter] + digits);
        assert(name.skip(1) =~= digits);
        assert(special_id(name) is None);
        assert forall|i: int| 0 <= i < name.len() implies !text::white_space(
            #[trigger] name[i],
        ) by {
            if i > 0 {
                assert(name[i] == digits[i - 1]);
                assert(text::is_digit(digits[i - 1]));
            }
        }
    } else {
        reveal_strlit("<invalid:");
        let front = "<invalid:"@;
        let digits = text::decimal(id as nat);
        text::decimal_reads_back(id as nat);
        assert(name[0] == '<');
        assert(special_id(name) is None);
        assert(name.skip(1)[0] == 'i' && !text::is_digit('i'));
        assert(text::parsed(name.skip(1)) is None);
        assert forall|i: int| 0 <= i < name.len() implies !text::white_space(
            #[trigger] name[i],
        ) by {
            if i < front.len() {
                assert(name[i] == front[i]);
            } else if i < front.len() + digits.len() {
                assert(name[i] == digits[i - front.len()]);
                assert(text::is_digit(digits[i - front.len()]));
            } else {
                assert(name[i] == '>');
            }
        }
    }
}

/// Decoding and encoding tokens keeps the tokens of the vocabulary, in order, and
/// drops the others; tokens that are all of the vocabulary survive.
pub proof fn kv_encode_decode(vocab: KvVocab, tokens: Seq<TokenId>)
    requires
        vocab.ids_fit(),
    ensures
        vocab.can_decode(tokens),
        vocab.can_encode(vocab.decoded(tokens)),
        vocab.encoded(vocab.decoded(tokens)) == tokens.filter(|t: TokenId| t < vocab.size()),
        (forall|i: int| 0 <= i < tokens.len() ==> #[trigger] tokens[i] < vocab.size())
            ==> vocab.encoded(vocab.decoded(tokens)) == tokens,
{
    let names = tokens.map_values(|t: TokenId| vocab.name_of(t));
    assert forall|i: int| 0 <= i < names.len() implies text::is_word(#[trigger] names[i])
        && vocab.can_look_up(names[i]) && names[i] == vocab.name_of(tokens[i]) by {
        name_looks_up(vocab, tokens[i]);
    }
    text::words_of_joined(names);
    lemma_known_looked_up(vocab, tokens);
    if forall|i: int| 0 <= i < tokens.len() ==> #[trigger] tokens[i] < vocab.size() {
        lemma_all_known(vocab, tokens);
    }
}

proof fn lemma_known_looked_up(vocab: KvVocab, tokens: Seq<TokenId>)
    requires
        vocab.ids_fit(),
    ensures
        tokens.map_values(|t: TokenId| vocab.name_of(t)).filter_map(
            |w: Seq<char>| token_of(vocab, w),
        ) == tokens.filter(|t: TokenId| t < vocab.size()),
    decreases tokens.len(),
{
    reveal(Seq::filter);
    let name = |t: TokenId| vocab.name_of(t);
    if tokens.len() > 0 {
        let front = tokens.drop_last();
        lemma_known_looked_up(vocab, front);
        name_looks_up(vocab, tokens.last());
        assert(tokens.map_values(name).drop_last() =~= front.map_values(name));
    }
}

proof fn lemma_all_known(vocab: KvVocab, tokens: Seq<TokenId>)
    requires
        forall|i: int| 0 <= i < tokens.len() ==> #[trigger] tokens[i] < vocab.size(),
    ensures
        tokens.filter(|t: TokenId| t < vocab.size()) == tokens,
    decreases tokens.len(),
{
    reveal(Seq::filter);
    if tokens.len() > 0 {
        lemma_all_known(vocab, tokens.drop_last());
    }
}

/// The names of vocabulary tokens, joined by single spaces, survive encoding and
/// decoding.
pub proof fn kv_decode_encode(vocab: KvVocab, tokens: Seq<TokenId>, text: Seq<char>)
    requires
        vocab.ids_fit(),
        forall|i: int| 0 <= i < tokens.len() ==> #[trigger] tokens[i] < vocab.size(),
        text == text::joined(tokens.map_values(|t: TokenId| vocab.name_of(t))),
    ensures
        vocab.decoded(vocab.encoded(text)) == text,
{
    kv_encode_decode(vocab, tokens);
}

/// The ids come in three blocks: six special tokens, then the keys, then the
/// values, and nothing after them.
pub proof fn ids_come_in_three_blocks(vocab: KvVocab, id: TokenId)
    ensures
        vocab.holds_key(id) <==> 6 <= id < 6 + vocab.num_keys,
        vocab.holds_value(id) <==> 6 + vocab.num_keys <= id < 6 + vocab.num_keys
            + vocab.num_values,
        vocab.size() == 6 + vocab.num_keys + vocab.num_values,
        vocab.ids_fit() <==> 6 + vocab.num_keys + vocab.num_values <= u32::MAX,
        vocab.pad() == 0,
        vocab.bos() == Some(1u32),
        vocab.eos() == Some(2u32),
        vocab.mask() == Some(5u32),
        SEP == 3 && QUERY == 4,
{
}

/// A key is named `K` and its number, a value `V` and its number, in decimal
/// digits without leading zeros; an id outside the vocabulary is named by its own
/// number, marked invalid.
pub proof fn names_spell_the_numbers(vocab: KvVocab, id: TokenId)
    ensures
        id == 0 ==> vocab.name_of(id) == "PAD"@,
        id == 1 ==> vocab.name_of(id) == "BOS"@,
        id == 2 ==> vocab.name_of(id) == "EOS"@,
        id == 3 ==> vocab.name_of(id) == "SEP"@,
        id == 4 ==> vocab.name_of(id) == "QUERY"@,
        id == 5 ==> vocab.name_of(id) == "MASK"@,
        id >= 6 ==> {
            let front = if id < 6 + vocab.num_keys {
                seq!['K']
            } else if id < 6 + vocab.num_keys + vocab.num_values {
                seq!['V']
            } else {
                "<invalid:"@
            };
            let back = if id < 6 + vocab.num_keys + vocab.num_values {
                Seq::<char>::empty()
            } else {
                seq!['>']
            };
            let number = if id < 6 + vocab.num_keys {
                id - 6
            } else if id < 6 + vocab.num_keys + vocab.num_values {
                id - 6 - vocab.num_keys
            } else {
                id as int
            };
            let digits = text::decimal(number as nat);
            &&& vocab.name_of(id) == front + digits + back
            &&& text::decimal_value(digits) == number
            &&& digits.len() > 1 ==> digits[0] != '0'
            &&& forall|i: int| 0 <= i < digits.len() ==> '0' <= #[trigger] digits[i] <= '9'
        },
{
    if id >= 6 {
        let number: nat = if id < 6 + vocab.num_keys {
            (id - 6) as nat
        } else if id < 6 + vocab.num_keys + vocab.num_values {
            (id - 6 - vocab.num_keys) as nat
        } else {
            id as nat
        };
        let digits = text::decimal(number);
        text::decimal_reads_back(number);
        text::decimals_have_no_leading_zero(number, 0);
        assert forall|i: int| 0 <= i < digits.len() implies '0' <= #[trigger] digits[i] <= '9' by {
            assert(text::is_digit(digits[i]));
        }
        assert(seq!['K'] + digits + Seq::<char>::empty() =~= seq!['K'] + digits);
        assert(seq!['V'] + digits + Seq::<char>::empty() =~= seq!['V'] + digits);
    }
}

/// `K` and a number stands for that key, `V` and a number for that value, as long
/// as the vocabulary has that many; any other first letter stands for nothing
/// unless the whole is a special name, and so does a rest that is no number.
pub proof fn numbered_names_stand_for_ids(
    vocab: KvVocab,
    letter: char,
    rest: Seq<char>,
    n: nat,
)
    ensures
        vocab.id_of("PAD"@) == Some(0int),
        vocab.id_of("BOS"@) == Some(1int),
        vocab.id_of("EOS"@) == Some(2int),
        vocab.id_of("SEP"@) == Some(3int),
        vocab.id_of("QUERY"@) == Some(4int),
        vocab.id_of("MASK"@) == Some(5int),
        text::parsed(rest) == Some(n) ==> vocab.id_of(seq!['K'] + rest) == if n < vocab.num_keys {
            Some(6 + n as int)
        } else {
            None
        },
        text::parsed(rest) == Some(n) ==> vocab.id_of(seq!['V'] + rest) == if n
            < vocab.num_values {
            Some(6 + vocab.num_keys + n as int)
        } else {
            None
        },
        text::parsed(rest) is None ==> vocab.id_of(seq!['K'] + rest) is None && vocab.id_of(
            seq!['V'] + rest,
        ) is None,
        letter != 'K' && letter != 'V' && seq![letter] + rest != "PAD"@ && seq![letter] + rest
            != "BOS"@ && seq![letter] + rest != "EOS"@ && seq![letter] + rest != "SEP"@
            && seq![letter] + rest != "QUERY"@ && seq![letter] + rest != "MASK"@
            ==> vocab.id_of(seq![letter] + rest) is None,
{
    reveal_strlit("PAD");
    reveal_strlit("BOS");
    reveal_strlit("EOS");
    reveal_strlit("SEP");
    reveal_strlit("QUERY");
    reveal_strlit("MASK");
    assert("PAD"@[0] == 'P' && "BOS"@[0] == 'B' && "EOS"@[0] == 'E' && "SEP"@[0] == 'S'
        && "QUERY"@[0] == 'Q' && "MASK"@[0] == 'M');
    let key = seq!['K'] + rest;
    let value = seq!['V'] + rest;
    let other = seq![letter] + rest;
    assert(key[0] == 'K' && value[0] == 'V' && other[0] == letter);
    assert(key.skip(1) =~= rest && value.skip(1) =~= rest && other.skip(1) =~= rest);
}

/// Texts are encoded word by word: white space only separates, and a word gives
/// its token, or nothing where it stands for none. Tokens are decoded one by one,
/// with a single space between their names.
pub proof fn kv_tokens_go_word_by_word(
    vocab: KvVocab,
    a: Seq<char>,
    c: char,
    b: Seq<char>,
    w: Seq<char>,
    x: Seq<TokenId>,
    y: Seq<TokenId>,
    id: TokenId,
)
    requires
        text::white_space(c),
        text::is_word(w),
    ensures
        vocab.encoded(a.push(c) + b) == vocab.encoded(a) + vocab.encoded(b),
        vocab.encoded(w) == match vocab.id_of(w) {
            Some(t) => seq![t as TokenId],
            None => Seq::<TokenId>::empty(),
        },
        x.len() > 0 && y.len() > 0 ==> vocab.decoded(x + y) == vocab.decoded(x).push(' ')
            + vocab.decoded(y),
        vocab.decoded(seq![id]) == vocab.name_of(id),
        vocab.decoded(Seq::empty()) == Seq::<char>::empty(),
{
    let f = |w: Seq<char>| token_of(vocab, w);
    let name = |t: TokenId| vocab.name_of(t);
    text::white_space_separates_words(a, c, b, w);
    tokenizer::lemma_filter_map_splits(text::words(a), text::words(b), f);
    reveal_with_fuel(Seq::filter_map, 2);
    assert(seq![w].drop_last() =~= Seq::<Seq<char>>::empty());
    assert((x + y).map_values(name) =~= x.map_values(name) + y.map_values(name));
    text::one_space_between_parts(x.map_values(name), y.map_values(name), w);
    assert(seq![id].map_values(name) =~= seq![vocab.name_of(id)]);
    text::one_space_between_parts(x.map_values(name), y.map_values(name), vocab.name_of(id));
    assert(Seq::<TokenId>::empty().map_values(name) =~= Seq::<Seq<char>>::empty());
}

/// Where every id fits, all tokens can be decoded, and every text can be encoded
/// whose words start with ASCII characters.
pub proof fn what_can_be_translated(vocab: KvVocab, tokens: Seq<TokenId>, text: Seq<char>)
    requires
        6 + vocab.num_keys + vocab.num_values <= u32::MAX,
    ensures
        vocab.can_decode(tokens),
        (forall|i: int|
            0 <= i < text::words(text).len() ==> ((#[trigger] text::words(text)[i])[0] as int)
                < 128) ==> vocab.can_encode(text),
{
    text::words_are_words(text);
    if forall|i: int|
        0 <= i < text::words(text).len() ==> ((#[trigger] text::words(text)[i])[0] as int) < 128 {
        assert forall|i: int| 0 <= i < text::words(text).len() implies vocab.can_look_up(
            #[trigger] text::words(text)[i],
        ) by {
            assert(text::is_word(text::words(text)[i]));
        }
    }
}

} // verus!
