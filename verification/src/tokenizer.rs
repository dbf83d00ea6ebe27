//! Tokenizers: the interface, and a character-level one.

use crate::text::chars_of;
use std::collections::HashMap;
use vstd::prelude::*;

verus! {

/// Token ids are plain u32 everywhere outside tensors; conversion to the
/// backend's int type happens only at batch-construction time.
pub type TokenId = u32;

/// Minimal tokenizer interface.
///
/// Special-token accessors return `Option` because not every tokenizer needs
/// every special token; the ablation pipeline requires `mask_id`.
pub trait Tokenizer: Send + Sync {
    /// How many token ids there are.
    spec fn size(&self) -> nat;

    /// The texts that can be encoded.
    spec fn can_encode(&self, text: Seq<char>) -> bool;

    /// The tokens of an encodable text.
    spec fn encoded(&self, text: Seq<char>) -> Seq<TokenId>;

    /// The token sequences that can be decoded.
    spec fn can_decode(&self, tokens: Seq<TokenId>) -> bool;

    /// The text of decodable tokens.
    spec fn decoded(&self, tokens: Seq<TokenId>) -> Seq<char>;

    spec fn pad(&self) -> TokenId;

    spec fn bos(&self) -> Option<TokenId>;

    spec fn eos(&self) -> Option<TokenId>;

    spec fn mask(&self) -> Option<TokenId>;

    fn vocab_size(&self) -> (r: usize)
        requires
            self.size() <= usize::MAX,
        ensures
            r == self.size(),
    ;

    fn encode(&self, text: &str) -> (r: Vec<TokenId>)
        requires
            self.can_encode(text@),
        ensures
            r@ == self.encoded(text@),
    ;

    fn decode(&self, tokens: &[TokenId]) -> (r: String)
        requires
            self.can_decode(tokens@),
        ensures
            r@ == self.decoded(tokens@),
    ;

    fn pad_id(&self) -> (r: TokenId)
        ensures
            r == self.pad(),
    ;

    fn bos_id(&self) -> (r: Option<TokenId>)
        ensures
            r == self.bos(),
    ;

    fn eos_id(&self) -> (r: Option<TokenId>)
        ensures
            r == self.eos(),
    ;

    /// Token used to ablate/mask spans and as Editor input corruption.
    fn mask_id(&self) -> (r: Option<TokenId>)
        ensures
            r == self.mask(),
    ;
}

/// Trivial char-level tokenizer over a fixed alphabet.
pub struct CharTokenizer {
    chars: Vec<char>,
    /// The id of each alphabet character, under its code point.
    ids: HashMap<u32, TokenId>,
}

/// Layout: 0=PAD, 1=BOS, 2=EOS, 3=MASK, then alphabet chars in order.
pub const NUM_CHAR_SPECIAL: TokenId = 4;

/// The last place of `c` in the alphabet, or -1 where it has none.
pub open spec fn place_of(alphabet: Seq<char>, c: char) -> int
    decreases alphabet.len(),
{
    if alphabet.len() == 0 {
        -1
    } else if alphabet.last() == c {
        alphabet.len() - 1
    } else {
        place_of(alphabet.drop_last(), c)
    }
}

/// The id of an alphabet character; other characters have none.
pub open spec fn char_id(alphabet: Seq<char>, c: char) -> Option<TokenId> {
    if place_of(alphabet, c) >= 0 {
        Some((place_of(alphabet, c) + NUM_CHAR_SPECIAL) as TokenId)
    } else {
        None
    }
}

/// The character of an id; special and unassigned ids have none.
pub open spec fn id_char(alphabet: Seq<char>, id: TokenId) -> Option<char> {
    if NUM_CHAR_SPECIAL <= id && id - NUM_CHAR_SPECIAL < alphabet.len() {
        Some(alphabet[id - NUM_CHAR_SPECIAL])
    } else {
        None
    }
}

proof fn lemma_place_of(alphabet: Seq<char>, c: char)
    ensures
        -1 <= place_of(alphabet, c) < alphabet.len(),
        place_of(alphabet, c) >= 0 ==> alphabet[place_of(alphabet, c)] == c,
        place_of(alphabet, c) >= 0 <==> alphabet.contains(c),
    decreases alphabet.len(),
{
    if alphabet.len() > 0 {
        let shorter = alphabet.drop_last();
        lemma_place_of(shorter, c);
        if alphabet.last() != c && alphabet.contains(c) {
            let i = choose|i: int| 0 <= i < alphabet.len() && alphabet[i] == c;
            assert(shorter[i] == c);
        }
    }
}

/// Different characters have different code points.
proof fn lemma_code_points_differ(c: char, d: char)
    requires
        c != d,
    ensures
        c as u32 != d as u32,
{
}

impl CharTokenizer {
    pub closed spec fn alphabet(&self) -> Seq<char> {
        self.chars@
    }

    /// The map holds exactly the alphabet's characters, each with its id.
    #[verifier::type_invariant]
    spec fn inv(&self) -> bool {
        &&& self.chars@.len() + NUM_CHAR_SPECIAL <= u32::MAX + 1
        &&& ids_match(self.ids@, self.chars@)
    }

    pub fn new(alphabet: &str) -> (r: CharTokenizer)
        requires
            alphabet@.len() + NUM_CHAR_SPECIAL <= u32::MAX + 1,
        ensures
            r.alphabet() == alphabet@,
    {
        let chars: Vec<char> = chars_of(alphabet);
        let mut ids: HashMap<u32, TokenId> = HashMap::new();
        let mut i: usize = 0;
        while i < chars.len()
            invariant
                i <= chars.len(),
                chars@.len() + NUM_CHAR_SPECIAL <= u32::MAX + 1,
                ids_match(ids@, chars@.take(i as int)),
            decreases chars.len() - i,
        {
            let c: char = chars[i];
            let ghost before = ids@;
            ids.insert(c as u32, i as TokenId + NUM_CHAR_SPECIAL);
            proof {
                let wider = chars@.take(i + 1);
                assert(wider.drop_last() =~= chars@.take(i as int));
                assert forall|d: char| #[trigger] ids_match_at(ids@, wider, d) by {
                    assert(ids_match_at(before, chars@.take(i as int), d));
                    if d != c {
                        lemma_code_points_differ(c, d);
                    }
                }
            }
            i = i + 1;
        }
        assert(chars@.take(i as int) =~= chars@);
        CharTokenizer { chars, ids }
    }
}

/// The map's entry for `c` is its id, if it has one.
pub open spec fn ids_match_at(ids: Map<u32, TokenId>, alphabet: Seq<char>, c: char) -> bool {
    match char_id(alphabet, c) {
        Some(id) => ids.contains_key(c as u32) && ids[c as u32] == id,
        None => !ids.contains_key(c as u32),
    }
}

pub open spec fn ids_match(ids: Map<u32, TokenId>, alphabet: Seq<char>) -> bool {
    forall|c: char| #[trigger] ids_match_at(ids, alphabet, c)
}

impl Tokenizer for CharTokenizer {
    open spec fn size(&self) -> nat {
        self.alphabet().len() + NUM_CHAR_SPECIAL as nat
    }

    open spec fn can_encode(&self, text: Seq<char>) -> bool {
        true
    }

    open spec fn encoded(&self, text: Seq<char>) -> Seq<TokenId> {
        text.filter_map(|c: char| char_id(self.alphabet(), c))
    }

    open spec fn can_decode(&self, tokens: Seq<TokenId>) -> bool {
        true
    }

    open spec fn decoded(&self, tokens: Seq<TokenId>) -> Seq<char> {
        tokens.filter_map(|t: TokenId| id_char(self.alphabet(), t))
    }

    open spec fn pad(&self) -> TokenId {
        0
    }

    open spec fn bos(&self) -> Option<TokenId> {
        Some(1)
    }

    open spec fn eos(&self) -> Option<TokenId> {
        Some(2)
    }

    open spec fn mask(&self) -> Option<TokenId> {
        Some(3)
    }

    fn vocab_size(&self) -> (r: usize) {
        self.chars.len() + NUM_CHAR_SPECIAL as usize
    }

    /// Unknown characters are silently dropped, acceptable for a toy
    /// tokenizer over a controlled alphabet.
    fn encode(&self, text: &str) -> (r: Vec<TokenId>) {
        proof {
            use_type_invariant(self);
        }
        let letters: Vec<char> = chars_of(text);
        let ghost f = |c: char| char_id(self.alphabet(), c);
        let mut out: Vec<TokenId> = Vec::new();
        let mut i: usize = 0;
        while i < letters.len()
            invariant
                i <= letters.len(),
                f == (|c: char| char_id(self.alphabet(), c)),
                ids_match(self.ids@, self.alphabet()),
                out@ =~= letters@.take(i as int).filter_map(f),
            decreases letters.len() - i,
        {
            let c: char = letters[i];
            proof {
                assert(ids_match_at(self.ids@, self.alphabet(), c));
                letters@.lemma_filter_map_take_succ(f, i as int);
            }
            match self.ids.get(&(c as u32)) {
                Some(id) => out.push(*id),
                None => {},
            }
            i = i + 1;
        }
        assert(letters@.take(i as int) =~= letters@);
        out
    }

    fn decode(&self, tokens: &[TokenId]) -> (r: String) {
        proof {
            use_type_invariant(self);
        }
        let ghost f = |t: TokenId| id_char(self.alphabet(), t);
        let mut out: String = String::new();
        let mut i: usize = 0;
        while i < tokens.len()
            invariant
                i <= tokens.len(),
                f == (|t: TokenId| id_char(self.alphabet(), t)),
                out@ =~= tokens@.take(i as int).filter_map(f),
            decreases tokens.len() - i,
        {
            let t: TokenId = tokens[i];
            proof {
                tokens@.lemma_filter_map_take_succ(f, i as int);
            }
            if t >= NUM_CHAR_SPECIAL {
                let place: usize = (t - NUM_CHAR_SPECIAL) as usize;
                if place < self.chars.len() {
                    out.push(self.chars[place]);
                }
            }
            i = i + 1;
        }
        assert(tokens@.take(i as int) =~= tokens@);
        out
    }

    fn pad_id(&self) -> (r: TokenId) {
        0
    }

    fn bos_id(&self) -> (r: Option<TokenId>) {
        Some(1)
    }

    fn eos_id(&self) -> (r: Option<TokenId>) {
        Some(2)
    }

    fn mask_id(&self) -> (r: Option<TokenId>) {
        Some(3)
    }
}

/// Decoding an encoded text gives back its alphabet characters, in order.
pub proof fn char_decode_encode(tok: &CharTokenizer, text: Seq<char>)
    requires
        tok.size() <= u32::MAX + 1,
    ensures
        tok.decoded(tok.encoded(text)) == text.filter(|c: char| tok.alphabet().contains(c)),
    decreases text.len(),
{
    reveal(Seq::filter);
    let encode = |c: char| char_id(tok.alphabet(), c);
    let known = |c: char| tok.alphabet().contains(c);
    if text.len() > 0 {
        let front = text.drop_last();
        let c = text.last();
        char_decode_encode(tok, front);
        lemma_place_of(tok.alphabet(), c);
        if known(c) {
            let shorter = front.filter_map(encode);
            let longer = text.filter_map(encode);
            assert(longer.drop_last() =~= shorter);
        }
    }
}

/// A text over the alphabet survives encoding and decoding.
pub proof fn char_roundtrip(tok: &CharTokenizer, text: Seq<char>)
    requires
        tok.size() <= u32::MAX + 1,
        forall|i: int| 0 <= i < text.len() ==> tok.alphabet().contains(#[trigger] text[i]),
    ensures
        tok.decoded(tok.encoded(text)) == text,
        tok.encoded(text).len() == text.len(),
    decreases text.len(),
{
    char_decode_encode(tok, text);
    reveal(Seq::filter);
    if text.len() > 0 {
        let front = text.drop_last();
        char_roundtrip(tok, front);
        char_decode_encode(tok, front);
        lemma_place_of(tok.alphabet(), text.last());
    }
}

/// Over an alphabet without repeats, ids of alphabet characters survive decoding
/// and encoding.
pub proof fn char_encode_decode(tok: &CharTokenizer, tokens: Seq<TokenId>)
    requires
        tok.size() <= u32::MAX + 1,
        tok.alphabet().no_duplicates(),
        forall|i: int|
            0 <= i < tokens.len() ==> NUM_CHAR_SPECIAL <= #[trigger] tokens[i] < tok.size(),
    ensures
        tok.encoded(tok.decoded(tokens)) == tokens,
    decreases tokens.len(),
{
    let decode = |t: TokenId| id_char(tok.alphabet(), t);
    if tokens.len() > 0 {
        let front = tokens.drop_last();
        let t = tokens.last();
        char_encode_decode(tok, front);
        let c = decode(t)->0;
        lemma_place_of(tok.alphabet(), c);
        let shorter = front.filter_map(decode);
        let longer = tokens.filter_map(decode);
        assert(longer.drop_last() =~= shorter);
    }
}

/// An alphabet character's id is 4 more than its last place in the alphabet, and
/// characters outside the alphabet have none; an id's character is the one 4
/// places before it, and ids below 4 or past the alphabet have none.
pub proof fn char_ids_follow_the_alphabet(alphabet: Seq<char>, c: char, id: TokenId)
    requires
        alphabet.len() + 4 <= u32::MAX + 1,
    ensures
        char_id(alphabet, c) == Some(id) <==> {
            &&& 4 <= id < 4 + alphabet.len()
            &&& alphabet[id - 4] == c
            &&& forall|j: int| id - 4 < j < alphabet.len() ==> #[trigger] alphabet[j] != c
        },
        char_id(alphabet, c) is None <==> !alphabet.contains(c),
        id_char(alphabet, id) == Some(c) <==> 4 <= id < 4 + alphabet.len() && alphabet[id - 4]
            == c,
        id_char(alphabet, id) is None <==> !(4 <= id < 4 + alphabet.len()),
{
    lemma_place_of(alphabet, c);
    lemma_place_is_last(alphabet, c);
}

proof fn lemma_place_is_last(alphabet: Seq<char>, c: char)
    ensures
        forall|j: int|
            place_of(alphabet, c) < j < alphabet.len() ==> #[trigger] alphabet[j] != c,
    decreases alphabet.len(),
{
    if alphabet.len() > 0 && alphabet.last() != c {
        let shorter = alphabet.drop_last();
        lemma_place_of(shorter, c);
        lemma_place_is_last(shorter, c);
        assert forall|j: int|
            place_of(alphabet, c) < j < alphabet.len() implies #[trigger] alphabet[j] != c by {
            if j < shorter.len() {
                assert(shorter[j] == alphabet[j]);
            }
        }
    }
}

/// Texts are encoded, and tokens decoded, one at a time and in order: what comes
/// of two texts put together is what comes of the first, then what comes of the
/// second, and a single character or token gives its counterpart or nothing.
pub proof fn char_tokens_go_one_by_one(
    tok: &CharTokenizer,
    a: Seq<char>,
    b: Seq<char>,
    x: Seq<TokenId>,
    y: Seq<TokenId>,
    c: char,
    id: TokenId,
)
    ensures
        tok.encoded(a + b) == tok.encoded(a) + tok.encoded(b),
        tok.encoded(seq![c]) == match char_id(tok.alphabet(), c) {
            Some(t) => seq![t],
            None => Seq::<TokenId>::empty(),
        },
        tok.encoded(Seq::empty()) == Seq::<TokenId>::empty(),
        tok.decoded(x + y) == tok.decoded(x) + tok.decoded(y),
        tok.decoded(seq![id]) == match id_char(tok.alphabet(), id) {
            Some(d) => seq![d],
            None => Seq::<char>::empty(),
        },
        tok.decoded(Seq::empty()) == Seq::<char>::empty(),
        tok.can_encode(a),
        tok.can_decode(x),
        tok.size() == tok.alphabet().len() + 4,
        tok.pad() == 0,
        tok.bos() == Some(1u32),
        tok.eos() == Some(2u32),
        tok.mask() == Some(3u32),
{
    let encode = |c: char| char_id(tok.alphabet(), c);
    let decode = |t: TokenId| id_char(tok.alphabet(), t);
    lemma_filter_map_splits(a, b, encode);
    lemma_filter_map_splits(x, y, decode);
    reveal_with_fuel(Seq::filter_map, 2);
    assert(seq![c].drop_last() =~= Seq::<char>::empty());
    assert(seq![id].drop_last() =~= Seq::<TokenId>::empty());
}

/// Mapping and filtering two sequences put together is doing so to each.
pub(crate) proof fn lemma_filter_map_splits<A, B>(
    a: Seq<A>,
    b: Seq<A>,
    f: spec_fn(A) -> Option<B>,
)
    ensures
        (a + b).filter_map(f) == a.filter_map(f) + b.filter_map(f),
    decreases b.len(),
{
    if b.len() == 0 {
        assert(a + b =~= a);
        assert(a.filter_map(f) + b.filter_map(f) =~= a.filter_map(f));
    } else {
        lemma_filter_map_splits(a, b.drop_last(), f);
        assert((a + b).drop_last() =~= a + b.drop_last());
        assert((a + b).last() == b.last());
        assert((a + b).filter_map(f) =~= a.filter_map(f) + b.filter_map(f));
    }
}

} // verus!
