use vstd::prelude::*;
use patricia_tree::PatriciaMap;
use vstd::string::StringSliceAdditionalSpecFns;
use crate::prefix::{
    min, pieces_map, trie_contents, trie_get, trie_insert, trie_new, utf8_width, words_view, BOS, EOS,
};

verus! {

/// A byte-pair tokenizer: every piece has a score (ordered as the scores of
/// the vocabulary file order them), and adjacent tokens are merged, best
/// score first, while their concatenation is a piece.
pub struct BpeTokenizer {
    pub words: Vec<Vec<u8>>,
    pub scores: Vec<i64>,
    pub trie: PatriciaMap<u32>,
    pub max_token_len: u32,
}

/// The id of the piece spelled by tokens `a` then `b`, if there is one.
pub open spec fn pair_id(c: Map<Seq<u8>, u32>, words: Seq<Seq<u8>>, a: u32, b: u32) -> Option<u32> {
    if a < words.len() && b < words.len() && c.contains_key(words[a as int] + words[b as int]) {
        Some(c[words[a as int] + words[b as int]])
    } else {
        None
    }
}

/// The best merge among the first `k` adjacent pairs: `(position, id)` of
/// the first pair with the highest score.
pub open spec fn best_merge(
    c: Map<Seq<u8>, u32>,
    words: Seq<Seq<u8>>,
    scores: Seq<i64>,
    toks: Seq<u32>,
    k: int,
) -> Option<(int, u32)>
    decreases k,
{
    if k <= 0 {
        None
    } else {
        let prev = best_merge(c, words, scores, toks, k - 1);
        let cand = pair_id(c, words, toks[k - 1], toks[k]);
        if cand is Some && cand->Some_0 < scores.len() && (prev is None || scores[cand->Some_0 as int]
            > scores[prev->Some_0.1 as int]) {
            Some((k - 1, cand->Some_0))
        } else {
            prev
        }
    }
}

/// Merges until no adjacent pair spells a piece.
pub open spec fn merged(c: Map<Seq<u8>, u32>, words: Seq<Seq<u8>>, scores: Seq<i64>, toks: Seq<u32>) -> Seq<u32>
    decreases toks.len(),
{
    if toks.len() < 2 {
        toks
    } else {
        match best_merge(c, words, scores, toks, toks.len() - 1) {
            Some((i, id)) => if 0 <= i < toks.len() - 1 {
                merged(c, words, scores, toks.update(i, id).remove(i + 1))
            } else {
                toks
            },
            None => toks,
        }
    }
}

/// One token per character: the character's piece, else its bytes as
/// byte-fallback ids.
pub open spec fn char_tokens(c: Map<Seq<u8>, u32>, text: Seq<u8>) -> Seq<u32>
    decreases text.len(),
{
    if text.len() == 0 {
        Seq::empty()
    } else {
        let k = min(utf8_width(text[0]), text.len() as int);
        let ch = text.subrange(0, k);
        let first = if c.contains_key(ch) { seq![c[ch]] } else { ch.map_values(|b: u8| (b as u32 + 3) as u32) };
        first + char_tokens(c, text.subrange(k, text.len() as int))
    }
}

impl BpeTokenizer {
    pub open spec fn wf(&self) -> bool {
        &&& trie_contents(self.trie) == pieces_map(words_view(self.words@))
        &&& self.scores@.len() == self.words@.len()
        &&& self.words@.len() <= u32::MAX
    }

    /// Piece `i` gets id `i` and score `scores[i]`.
    pub fn new(words: Vec<Vec<u8>>, scores: Vec<i64>, max_token_len: u32) -> (r: BpeTokenizer)
        requires
            words@.len() <= u32::MAX,
            scores@.len() == words@.len(),
        ensures
            r.wf(),
            r.words@ == words@,
            r.scores@ == scores@,
            r.max_token_len == max_token_len,
    {
        let mut trie = trie_new();
        let mut i: usize = 0;
        while i < words.len()
            invariant
                i <= words@.len(),
                words@.len() <= u32::MAX,
                trie_contents(trie) == pieces_map(words_view(words@.subrange(0, i as int))),
            decreases words@.len() - i,
        {
            trie_insert(&mut trie, words[i].as_slice(), i as u32);
            proof {
                let next = words_view(words@.subrange(0, i + 1));
                assert(next.drop_last() =~= words_view(words@.subrange(0, i as int)));
                assert(next.last() == words@[i as int]@);
            }
            i = i + 1;
        }
        proof {
            assert(words@.subrange(0, words@.len() as int) == words@);
        }
        BpeTokenizer { words, scores, trie, max_token_len }
    }

    pub fn max_token_len(&self) -> (r: u32)
        ensures
            r == self.max_token_len,
    {
        self.max_token_len
    }

    /// The id of the piece spelled by tokens `a` then `b`.
    fn find_pair(&self, a: u32, b: u32) -> (r: Option<u32>)
        requires
            self.wf(),
        ensures
            r == pair_id(trie_contents(self.trie), words_view(self.words@), a, b),
    {
        if (a as usize) >= self.words.len() || (b as usize) >= self.words.len() {
            return None;
        }
        let mut pair: Vec<u8> = self.words[a as usize].clone();
        let ghost wa = self.words@[a as int]@;
        let ghost wb = self.words@[b as int]@;
        assert(pair@ == wa);
        let second = &self.words[b as usize];
        let mut j: usize = 0;
        while j < second.len()
            invariant
                j <= second@.len(),
                second@ == wb,
                pair@ == wa + wb.subrange(0, j as int),
            decreases second@.len() - j,
        {
            pair.push(second[j]);
            proof {
                assert(wa + wb.subrange(0, j + 1) =~= wa + wb.subrange(0, j as int) + seq![wb[j as int]]);
            }
            j = j + 1;
        }
        assert(wb.subrange(0, wb.len() as int) =~= wb);
        trie_get(&self.trie, pair.as_slice())
    }

    /// Tokenizes `text`: the space piece when the text is not empty and one
    /// token per character, merged; `BOS` before them when `bos` and `EOS`
    /// after them when `eos`, neither taking part in a merge. `None` when the text is not empty and there is no space
    /// piece.
    pub fn encode(&self, text: &str, bos: bool, eos: bool) -> (r: Option<Vec<u32>>)
        requires
            self.wf(),
        ensures
            ({
                let c = trie_contents(self.trie);
                let w = words_view(self.words@);
                let t = text.spec_bytes();
                let head = if bos { seq![BOS] } else { Seq::<u32>::empty() };
                let space = if t.len() > 0 { seq![c[seq![32u8]]] } else { Seq::<u32>::empty() };
                let tail = if eos { seq![EOS] } else { Seq::<u32>::empty() };
                &&& (t.len() > 0 && !c.contains_key(seq![32u8])) <==> r is None
                &&& r matches Some(v) ==> v@ == head + merged(c, w, self.scores@, space + char_tokens(c, t)) + tail
            }),
    {
        let ghost c = trie_contents(self.trie);
        let ghost w = words_view(self.words@);
        let bytes = text.as_bytes();
        let ghost t = bytes@;
        let mut tokens: Vec<u32> = Vec::new();
        let len = bytes.len();
        if len > 0 {
            let space: Vec<u8> = vec![32u8];
            assert(space@ == seq![32u8]);
            match trie_get(&self.trie, space.as_slice()) {
                Some(tok) => tokens.push(tok),
                None => {
                    return None;
                },
            }
        }
        let ghost head = tokens@;
        assert(head =~= (if t.len() > 0 {
            seq![c[seq![32u8]]]
        } else {
            Seq::<u32>::empty()
        }));
        assert(t.subrange(0, len as int) =~= t);
        let mut at: usize = 0;
        while at < len
            invariant
                at <= len,
                len == t.len(),
                t == bytes@,
                c == trie_contents(self.trie),
                head + char_tokens(c, t) == tokens@ + char_tokens(c, t.subrange(at as int, len as int)),
            decreases len - at,
        {
            let ghost rest = t.subrange(at as int, len as int);
            let lead = bytes[at];
            let width: usize = if lead < 0x80 { 1 } else if lead < 0xE0 { 2 } else if lead < 0xF0 { 3 } else { 4 };
            let k = if width < len - at { width } else { len - at };
            let ch = &bytes[at..at + k];
            proof {
                assert(rest[0] == lead);
                assert(ch@ =~= rest.subrange(0, k as int));
                assert(rest.subrange(k as int, rest.len() as int) =~= t.subrange(at + k, len as int));
            }
            let ghost before = tokens@;
            match trie_get(&self.trie, ch) {
                Some(id) => {
                    tokens.push(id);
                    proof {
                        assert(tokens@ + char_tokens(c, t.subrange(at + k, len as int)) =~= before
                            + char_tokens(c, rest));
                    }
                },
                None => {
                    let mut j: usize = 0;
                    while j < k
                        invariant
                            j <= k,
                            ch@.len() == k,
                            tokens@ == before + ch@.subrange(0, j as int).map_values(|b: u8| (b as u32 + 3) as u32),
                        decreases k - j,
                    {
                        tokens.push(ch[j] as u32 + 3);
                        proof {
                            assert(ch@.subrange(0, j + 1).map_values(|b: u8| (b as u32 + 3) as u32)
                                =~= ch@.subrange(0, j as int).map_values(|b: u8| (b as u32 + 3) as u32)
                                + seq![(ch@[j as int] as u32 + 3) as u32]);
                        }
                        j = j + 1;
                    }
                    proof {
                        assert(ch@.subrange(0, k as int) =~= ch@);
                        assert(tokens@ + char_tokens(c, t.subrange(at + k, len as int)) =~= before
                            + char_tokens(c, rest));
                    }
                },
            }
            at = at + k;
        }
        assert(t.subrange(len as int, len as int) =~= Seq::<u8>::empty());
        assert(tokens@ == head + char_tokens(c, t));
        self.merge_all(&mut tokens);
        if bos {
            tokens.insert(0, BOS);
        }
        if eos {
            tokens.push(EOS);
        }
        proof {
            let m = merged(c, w, self.scores@, head + char_tokens(c, t));
            let h = if bos { seq![BOS] } else { Seq::<u32>::empty() };
            let tl = if eos { seq![EOS] } else { Seq::<u32>::empty() };
            assert(tokens@ =~= h + m + tl);
        }
        Some(tokens)
    }

    /// Applies the best merge until none is left.
    fn merge_all(&self, tokens: &mut Vec<u32>)
        requires
            self.wf(),
        ensures
            final(tokens)@ == merged(trie_contents(self.trie), words_view(self.words@), self.scores@, old(tokens)@),
    {
        let ghost c = trie_contents(self.trie);
        let ghost w = words_view(self.words@);
        let ghost goal = merged(c, w, self.scores@, tokens@);
        loop
            invariant
                self.wf(),
                c == trie_contents(self.trie),
                w == words_view(self.words@),
                merged(c, w, self.scores@, tokens@) == goal,
                goal == merged(c, w, self.scores@, old(tokens)@),
            decreases tokens@.len(),
        {
            if tokens.len() < 2 {
                assert(merged(c, w, self.scores@, tokens@) == tokens@);
                return;
            }
            let n = tokens.len() - 1;
            let mut best: Option<(usize, u32)> = None;
            let mut i: usize = 0;
            while i < n
                invariant
                    i <= n,
                    n == tokens@.len() - 1,
                    self.wf(),
                    c == trie_contents(self.trie),
                    w == words_view(self.words@),
                    match best {
                        Some((p, id)) => best_merge(c, w, self.scores@, tokens@, i as int) == Some(
                            (p as int, id),
                        ) && (id as int) < self.scores@.len(),
                        None => best_merge(c, w, self.scores@, tokens@, i as int) is None,
                    },
                decreases n - i,
            {
                let cand = self.find_pair(tokens[i], tokens[i + 1]);
                match cand {
                    Some(id) => {
                        if (id as usize) < self.scores.len() {
                            let better = match best {
                                None => true,
                                Some((_, b)) => self.scores[id as usize] > self.scores[b as usize],
                            };
                            if better {
                                best = Some((i, id));
                            }
                        }
                    },
                    None => {},
                }
                i = i + 1;
            }
            match best {
                Some((p, id)) => {
                    proof {
                        lemma_best_in_range(c, w, self.scores@, tokens@, n as int);
                    }
                    let ghost before = tokens@;
                    tokens.set(p, id);
                    tokens.remove(p + 1);
                    proof {
                        assert(tokens@ =~= before.update(p as int, id).remove(p + 1));
                        assert(merged(c, w, self.scores@, before) == merged(c, w, self.scores@, tokens@));
                    }
                },
                None => {
                    assert(merged(c, w, self.scores@, tokens@) == tokens@);
                    return;
                },
            }
        }
    }

    /// The text of piece `next` after token `token`.
    pub fn decode(&self, token: u32, next: u32) -> (r: Vec<u8>)
        requires
            (next as int) < self.words@.len(),
        ensures
            r@ == crate::prefix::piece_text(token, self.words@[next as int]@),
    {
        crate::prefix::decode_piece(token, self.words[next as usize].as_slice())
    }
}

proof fn lemma_best_in_range(
    c: Map<Seq<u8>, u32>,
    words: Seq<Seq<u8>>,
    scores: Seq<i64>,
    toks: Seq<u32>,
    k: int,
)
    requires
        0 <= k,
    ensures
        best_merge(c, words, scores, toks, k) matches Some((i, id)) ==> 0 <= i < k && id < scores.len(),
    decreases k,
{
    if k > 0 {
        lemma_best_in_range(c, words, scores, toks, k - 1);
    }
}

} // verus!
