//! The vocabulary: one token for each byte that occurs in the text.

use std::collections::HashMap;
use vstd::prelude::*;

verus! {

/// The vocabulary of a text. `itos` lists its bytes in rising order, and the token of a byte is
/// its place in that list; `stoi` looks it up.
pub struct Vocabulary {
    pub stoi: HashMap<u8, usize>,
    pub itos: Vec<u8>,
}

impl Vocabulary {
    /// The bytes rise, and each is looked up at its place.
    pub open spec fn wf(self) -> bool {
        &&& forall|i: int, j: int|
            0 <= i < j < self.itos@.len() ==> self.itos@[i] < self.itos@[j]
        &&& forall|i: int|
            0 <= i < self.itos@.len() ==> #[trigger] self.stoi@.contains_key(self.itos@[i])
        &&& forall|b: u8|
            #[trigger] self.stoi@.contains_key(b) ==> self.stoi@[b] < self.itos@.len()
                && self.itos@[self.stoi@[b] as int] == b
    }

    /// Every byte of `text` has a token.
    pub open spec fn covers(self, text: Seq<u8>) -> bool {
        forall|i: int| 0 <= i < text.len() ==> self.itos@.contains(#[trigger] text[i])
    }
}

/// `tokens` are the tokens of `text`: each is the place of its byte.
pub open spec fn is_encoding(itos: Seq<u8>, text: Seq<u8>, tokens: Seq<usize>) -> bool {
    tokens.len() == text.len() && forall|i: int|
        0 <= i < text.len() ==> (#[trigger] tokens[i]) < itos.len() && itos[tokens[i] as int]
            == text[i]
}

/// The bytes of `tokens`.
pub open spec fn decoded(itos: Seq<u8>, tokens: Seq<usize>) -> Seq<u8> {
    tokens.map_values(|token: usize| itos[token as int])
}

/// Decoding the tokens of a text gives the text back.
pub proof fn lemma_decode_encode(vocab: Vocabulary, text: Seq<u8>, tokens: Seq<usize>)
    requires
        vocab.wf(),
        is_encoding(vocab.itos@, text, tokens),
    ensures
        decoded(vocab.itos@, tokens) == text,
{
    assert(decoded(vocab.itos@, tokens) =~= text);
}

/// Encoding the bytes of tokens gives the tokens back: there is no other encoding.
pub proof fn lemma_encode_decode(vocab: Vocabulary, tokens: Seq<usize>, again: Seq<usize>)
    requires
        vocab.wf(),
        forall|i: int| 0 <= i < tokens.len() ==> (#[trigger] tokens[i]) < vocab.itos@.len(),
        is_encoding(vocab.itos@, decoded(vocab.itos@, tokens), again),
    ensures
        again == tokens,
{
    assert forall|i: int| 0 <= i < tokens.len() implies again[i] == tokens[i] by {
        let (a, b) = (again[i] as int, tokens[i] as int);
        assert(vocab.itos@[a] == vocab.itos@[b]);
        if a < b {
            assert(vocab.itos@[a] < vocab.itos@[b]);
        } else if b < a {
            assert(vocab.itos@[b] < vocab.itos@[a]);
        }
    }
    assert(again =~= tokens);
}

/// Which bytes occur in `text`.
fn occurring(text: &[u8]) -> (seen: Vec<bool>)
    ensures
        seen@.len() == 256,
        forall|b: u8| #[trigger] seen@[b as int] == text@.contains(b),
{
    let mut seen: Vec<bool> = Vec::new();
    let mut n: usize = 0;
    while n < 256
        invariant
            n <= 256,
            seen@.len() == n,
            forall|k: int| 0 <= k < n ==> #[trigger] seen@[k] == false,
        decreases 256 - n,
    {
        seen.push(false);
        n = n + 1;
    }
    let mut i: usize = 0;
    while i < text.len()
        invariant
            i <= text@.len(),
            seen@.len() == 256,
            forall|b: u8| #[trigger] seen@[b as int] == text@.take(i as int).contains(b),
        decreases text@.len() - i,
    {
        let byte = text[i];
        let ghost before = text@.take(i as int);
        let ghost after = text@.take(i + 1);
        let ghost old_seen = seen@;
        seen[byte as usize] = true;
        proof {
            assert(after =~= before.push(byte));
            assert forall|b: u8| #[trigger] seen@[b as int] == after.contains(b) by {
                assert(old_seen[b as int] == before.contains(b));
                if b == byte {
                    assert(after[i as int] == b);
                } else {
                    if before.contains(b) {
                        let k = before.index_of(b);
                        assert(after[k] == b);
                    }
                    if after.contains(b) {
                        let k = after.index_of(b);
                        assert(before[k] == b);
                    }
                }
            }
        }
        i = i + 1;
    }
    assert(text@.take(i as int) =~= text@);
    seen
}

impl Vocabulary {
    /// The vocabulary of `text`.
    pub fn new(text: &[u8]) -> (vocab: Vocabulary)
        ensures
            vocab.wf(),
            forall|b: u8| #[trigger] vocab.itos@.contains(b) <==> text@.contains(b),
    {
        broadcast use vstd::std_specs::hash::group_hash_axioms;

        let seen = occurring(text);
        let mut stoi: HashMap<u8, usize> = HashMap::new();
        let mut itos: Vec<u8> = Vec::new();
        let mut n: usize = 0;
        while n < 256
            invariant
                n <= 256,
                seen@.len() == 256,
                itos@.len() <= n,
                forall|i: int, j: int| 0 <= i < j < itos@.len() ==> itos@[i] < itos@[j],
                forall|i: int| 0 <= i < itos@.len() ==> (#[trigger] itos@[i]) < n,
                forall|i: int| 0 <= i < itos@.len() ==> seen@[#[trigger] itos@[i] as int],
                forall|b: u8| b < n && #[trigger] seen@[b as int] ==> itos@.contains(b),
                forall|i: int| 0 <= i < itos@.len() ==> #[trigger] stoi@.contains_key(itos@[i]),
                forall|b: u8|
                    #[trigger] stoi@.contains_key(b) ==> stoi@[b] < itos@.len()
                        && itos@[stoi@[b] as int] == b,
            decreases 256 - n,
        {
            if seen[n] {
                let byte: u8 = n as u8;
                let ghost before = itos@;
                let ghost map = stoi@;
                stoi.insert(byte, itos.len());
                itos.push(byte);
                proof {
                    assert(itos@[before.len() as int] == byte);
                    assert forall|b: u8|
                        b < n + 1 && #[trigger] seen@[b as int] implies itos@.contains(
                        b,
                    ) by {
                        if b < n {
                            assert(before.contains(b));
                            let k = before.index_of(b);
                            assert(itos@[k] == b);
                        }
                    }
                    assert forall|b: u8| #[trigger] stoi@.contains_key(b) implies stoi@[b]
                        < itos@.len() && itos@[stoi@[b] as int] == b by {
                        if b != byte {
                            assert(map.contains_key(b));
                        }
                    }
                }
            }
            n = n + 1;
        }
        let vocab = Vocabulary { stoi, itos };
        proof {
            assert forall|b: u8| #[trigger] vocab.itos@.contains(b) <==> text@.contains(b) by {
                assert(seen@[b as int] == text@.contains(b));
                if vocab.itos@.contains(b) {
                    let k = vocab.itos@.index_of(b);
                    assert(seen@[vocab.itos@[k] as int]);
                }
            }
        }
        vocab
    }

    /// How many tokens there are.
    pub fn len(&self) -> (len: usize)
        ensures
            len == self.itos@.len(),
    {
        self.itos.len()
    }

    /// The tokens of `text`.
    pub fn encode(&self, text: &[u8]) -> (tokens: Vec<usize>)
        requires
            self.wf(),
            self.covers(text@),
        ensures
            is_encoding(self.itos@, text@, tokens@),
    {
        broadcast use vstd::std_specs::hash::group_hash_axioms;

        let mut tokens: Vec<usize> = Vec::new();
        let mut i: usize = 0;
        while i < text.len()
            invariant
                i <= text@.len(),
                self.wf(),
                self.covers(text@),
                tokens@.len() == i,
                forall|k: int|
                    0 <= k < i ==> (#[trigger] tokens@[k]) < self.itos@.len()
                        && self.itos@[tokens@[k] as int] == text@[k],
            decreases text@.len() - i,
        {
            let byte = text[i];
            proof {
                assert(self.itos@.contains(text@[i as int]));
                let k = self.itos@.index_of(byte);
                assert(self.stoi@.contains_key(self.itos@[k]));
            }
            let token = *self.stoi.get(&byte).unwrap();
            tokens.push(token);
            i = i + 1;
        }
        tokens
    }

    /// The bytes of `tokens`.
    pub fn decode(&self, tokens: &[usize]) -> (text: Vec<u8>)
        requires
            forall|i: int| 0 <= i < tokens@.len() ==> (#[trigger] tokens@[i]) < self.itos@.len(),
        ensures
            text@ == decoded(self.itos@, tokens@),
    {
        let mut text: Vec<u8> = Vec::new();
        let mut i: usize = 0;
        while i < tokens.len()
            invariant
                i <= tokens@.len(),
                forall|k: int|
                    0 <= k < tokens@.len() ==> (#[trigger] tokens@[k]) < self.itos@.len(),
                text@.len() == i,
                forall|k: int|
                    0 <= k < i ==> #[trigger] text@[k] == self.itos@[tokens@[k] as int],
            decreases tokens@.len() - i,
        {
            text.push(self.itos[tokens[i]]);
            i = i + 1;
        }
        assert(text@ =~= decoded(self.itos@, tokens@));
        text
    }
}

/// The vocabulary of a text has one token for each byte that occurs in it.
pub proof fn lemma_vocabulary_size(text: &[u8], vocab: Vocabulary)
    requires
        call_ensures(Vocabulary::new, (text,), vocab),
    ensures
        vocab.itos@.len() == text@.to_set().len(),
        vocab.covers(text@),
{
    assert forall|i: int, j: int|
        0 <= i < vocab.itos@.len() && 0 <= j < vocab.itos@.len() && i != j implies vocab.itos@[i]
        != vocab.itos@[j] by {
        if i < j {
            assert(vocab.itos@[i] < vocab.itos@[j]);
        } else {
            assert(vocab.itos@[j] < vocab.itos@[i]);
        }
    }
    vocab.itos@.unique_seq_to_set();
    assert forall|b: u8| vocab.itos@.to_set().contains(b) == #[trigger] text@.to_set().contains(
        b,
    ) by {
        assert(vocab.itos@.contains(b) <==> text@.contains(b));
    }
    assert(vocab.itos@.to_set() =~= text@.to_set());
    assert forall|i: int| 0 <= i < text@.len() implies vocab.itos@.contains(
        #[trigger] text@[i],
    ) by {
        assert(text@.contains(text@[i]));
    }
}

/// Tokens lie below the size of the vocabulary and stand to each other as their bytes do: equal
/// bytes have equal tokens, and a smaller byte has a smaller token. Decoding them gives the text
/// back.
pub proof fn lemma_encoding_keeps_order(
    vocab: &Vocabulary,
    text: &[u8],
    tokens: Vec<usize>,
    back: &[usize],
    again: Vec<u8>,
    size: usize,
)
    requires
        vocab.wf(),
        back@ == tokens@,
        call_ensures(Vocabulary::len, (vocab,), size),
        call_ensures(Vocabulary::encode, (vocab, text), tokens),
        call_ensures(Vocabulary::decode, (vocab, back), again),
    ensures
        tokens@.len() == text@.len(),
        forall|i: int| 0 <= i < text@.len() ==> (#[trigger] tokens@[i]) < size,
        forall|i: int, j: int|
            #![trigger tokens@[i], tokens@[j]]
            0 <= i < text@.len() && 0 <= j < text@.len() ==> (tokens@[i] < tokens@[j] <==> text@[i]
                < text@[j]),
        again@ == text@,
{
    assert forall|i: int, j: int|
        #![trigger tokens@[i], tokens@[j]]
        0 <= i < text@.len() && 0 <= j < text@.len() implies (tokens@[i] < tokens@[j] <==> text@[i]
        < text@[j]) by {
        let (a, b) = (tokens@[i] as int, tokens@[j] as int);
        assert(vocab.itos@[a] == text@[i] && vocab.itos@[b] == text@[j]);
        if a < b {
            assert(vocab.itos@[a] < vocab.itos@[b]);
        } else if b < a {
            assert(vocab.itos@[b] < vocab.itos@[a]);
        }
    }
    lemma_decode_encode(*vocab, text@, tokens@);
}

} // verus!
