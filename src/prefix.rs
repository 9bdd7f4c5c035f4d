use vstd::prelude::*;
use patricia_tree::PatriciaMap;
use vstd::string::StringSliceAdditionalSpecFns;

verus! {

/// Reserved token ids.
pub const UNKNOWN: u32 = 0;
pub const BOS: u32 = 1;
pub const EOS: u32 = 2;

/// The byte-keyed patricia map of `patricia_tree`, opaque here: what it
/// holds is `trie_contents`.
#[verifier::external_type_specification]
#[verifier::external_body]
#[verifier::reject_recursive_types(K)]
#[verifier::reject_recursive_types(V)]
pub struct ExGenericPatriciaMap<K, V>(patricia_tree::GenericPatriciaMap<K, V>);

/// The entries of a byte-keyed patricia map.
pub uninterp spec fn trie_contents(m: PatriciaMap<u32>) -> Map<Seq<u8>, u32>;

/// Relies on `PatriciaMap::new`: an empty map.
#[verifier::external_body]
pub(crate) fn trie_new() -> (r: PatriciaMap<u32>)
    ensures
        trie_contents(r).dom() == Set::<Seq<u8>>::empty(),
{
    PatriciaMap::new()
}

/// Relies on `PatriciaMap::insert`: the key now maps to the value, any
/// earlier value is replaced, other entries stay.
#[verifier::external_body]
pub(crate) fn trie_insert(m: &mut PatriciaMap<u32>, key: &[u8], value: u32)
    ensures
        trie_contents(*final(m)) == trie_contents(*old(m)).insert(key@, value),
{
    m.insert(key, value);
}

/// Relies on `PatriciaMap::get`: the value stored under exactly `key`.
#[verifier::external_body]
pub(crate) fn trie_get(m: &PatriciaMap<u32>, key: &[u8]) -> (r: Option<u32>)
    ensures
        trie_contents(*m).contains_key(key@) ==> r == Some(trie_contents(*m)[key@]),
        !trie_contents(*m).contains_key(key@) ==> r is None,
{
    m.get(key).copied()
}

/// Relies on `PatriciaMap::get_longest_common_prefix`: the longest key of
/// the map that is a prefix of `key`, as its length, and its value.
#[verifier::external_body]
fn trie_longest_prefix(m: &PatriciaMap<u32>, key: &[u8]) -> (r: Option<(usize, u32)>)
    ensures
        r matches Some((n, v)) ==> {
            &&& n <= key@.len()
            &&& trie_contents(*m).contains_key(key@.subrange(0, n as int))
            &&& trie_contents(*m)[key@.subrange(0, n as int)] == v
            &&& forall|k: int| n < k <= key@.len() ==> !trie_contents(*m).contains_key(#[trigger] key@.subrange(0, k))
        },
        r is None ==> forall|k: int| 0 <= k <= key@.len() ==> !trie_contents(*m).contains_key(#[trigger] key@.subrange(0, k)),
{
    match m.get_longest_common_prefix(key) {
        Some((p, v)) => Some((p.len(), *v)),
        None => None,
    }
}

/// The map from each piece to its id (its index); a repeated piece keeps
/// its last id.
pub open spec fn pieces_map(p: Seq<Seq<u8>>) -> Map<Seq<u8>, u32>
    decreases p.len(),
{
    if p.len() == 0 {
        Map::empty()
    } else {
        pieces_map(p.drop_last()).insert(p.last(), (p.len() - 1) as u32)
    }
}

/// The length of the longest non-empty prefix of `w`, of at most `n` bytes,
/// that is a key of `c`; zero if there is none.
pub open spec fn longest_key(c: Map<Seq<u8>, u32>, w: Seq<u8>, n: int) -> int
    decreases n,
{
    if n <= 0 {
        0
    } else if c.contains_key(w.subrange(0, n)) {
        n
    } else {
        longest_key(c, w, n - 1)
    }
}

/// Length of the UTF-8 sequence that starts with byte `b`.
pub open spec fn utf8_width(b: u8) -> int {
    if b < 0x80 { 1 } else if b < 0xE0 { 2 } else if b < 0xF0 { 3 } else { 4 }
}

pub open spec fn min(a: int, b: int) -> int {
    if a < b { a } else { b }
}

/// Greedy longest-match tokenization: at each point the longest piece that
/// starts there (looking at most `max_len` bytes ahead), else the bytes of
/// one character as byte-fallback ids `byte + 3`.
pub open spec fn greedy_pieces(c: Map<Seq<u8>, u32>, max_len: int, text: Seq<u8>) -> Seq<u32>
    decreases text.len(),
{
    if text.len() == 0 {
        Seq::empty()
    } else {
        let w = text.subrange(0, min(text.len() as int, max_len));
        let n = longest_key(c, w, w.len() as int);
        if 0 < n <= text.len() {
            seq![c[w.subrange(0, n)]] + greedy_pieces(c, max_len, text.subrange(n, text.len() as int))
        } else {
            let k = min(utf8_width(text[0]), text.len() as int);
            text.subrange(0, k).map_values(|b: u8| (b as u32 + 3) as u32) + greedy_pieces(
                c,
                max_len,
                text.subrange(k, text.len() as int),
            )
        }
    }
}

/// `<0xHH>` with two hex digits.
pub open spec fn hex_digit(b: u8) -> Option<u8> {
    if 48 <= b <= 57 {
        Some((b - 48) as u8)
    } else if 65 <= b <= 70 {
        Some((b - 55) as u8)
    } else if 97 <= b <= 102 {
        Some((b - 87) as u8)
    } else {
        None
    }
}

pub open spec fn byte_piece(p: Seq<u8>) -> Option<u8> {
    if p.len() == 6 && p[0] == 60 && p[1] == 48 && p[2] == 120 && p[5] == 62 && hex_digit(p[3]) is Some
        && hex_digit(p[4]) is Some {
        Some((hex_digit(p[3])->Some_0 * 16 + hex_digit(p[4])->Some_0) as u8)
    } else {
        None
    }
}

/// The text of piece `p` when it follows token `prev`.
pub open spec fn piece_text(prev: u32, p: Seq<u8>) -> Seq<u8> {
    if byte_piece(p) is Some {
        seq![byte_piece(p)->Some_0]
    } else if prev == BOS && p.len() > 0 && p[0] == 32 {
        p.subrange(1, p.len() as int)
    } else {
        p
    }
}

/// A tokenizer that takes the longest known piece at each point, with a
/// byte fallback.
pub struct LongestPrefix {
    pub words: Vec<Vec<u8>>,
    pub trie: PatriciaMap<u32>,
    pub max_piece_len: usize,
}

pub open spec fn words_view(w: Seq<Vec<u8>>) -> Seq<Seq<u8>> {
    Seq::new(w.len(), |i: int| w[i]@)
}

impl LongestPrefix {
    pub open spec fn wf(&self) -> bool {
        &&& trie_contents(self.trie) == pieces_map(words_view(self.words@))
        &&& forall|i: int| 0 <= i < self.words@.len() ==> #[trigger] self.words@[i]@.len() <= self.max_piece_len
    }

    /// Piece `i` gets id `i`.
    pub fn new(pieces: Vec<Vec<u8>>) -> (r: LongestPrefix)
        requires
            pieces@.len() <= u32::MAX,
        ensures
            r.wf(),
            r.words@ == pieces@,
    {
        let mut trie = trie_new();
        let mut max_piece_len: usize = 0;
        let mut i: usize = 0;
        while i < pieces.len()
            invariant
                i <= pieces@.len(),
                pieces@.len() <= u32::MAX,
                trie_contents(trie) == pieces_map(words_view(pieces@.subrange(0, i as int))),
                forall|j: int| 0 <= j < i ==> #[trigger] pieces@[j]@.len() <= max_piece_len,
            decreases pieces@.len() - i,
        {
            trie_insert(&mut trie, pieces[i].as_slice(), i as u32);
            if pieces[i].len() > max_piece_len {
                max_piece_len = pieces[i].len();
            }
            proof {
                let next = words_view(pieces@.subrange(0, i + 1));
                assert(next.drop_last() =~= words_view(pieces@.subrange(0, i as int)));
                assert(next.last() == pieces@[i as int]@);
            }
            i = i + 1;
        }
        proof {
            assert(pieces@.subrange(0, pieces@.len() as int) == pieces@);
        }
        LongestPrefix { words: pieces, trie, max_piece_len }
    }

    /// Tokenizes `text`: `BOS` first when `bos`, then the space piece when
    /// the text is not empty, then the greedy pieces, then `EOS` when `eos`.
    /// `None` when the text is not empty and there is no space piece.
    pub fn encode(&self, text: &str, bos: bool, eos: bool) -> (r: Option<Vec<u32>>)
        requires
            self.wf(),
        ensures
            ({
                let c = trie_contents(self.trie);
                let t = text.spec_bytes();
                let head = if bos { seq![BOS] } else { Seq::<u32>::empty() };
                let tail = if eos { seq![EOS] } else { Seq::<u32>::empty() };
                &&& (t.len() > 0 && !c.contains_key(seq![32u8])) <==> r is None
                &&& r matches Some(v) ==> v@ == head + (if t.len() > 0 { seq![c[seq![32u8]]] } else {
                    Seq::<u32>::empty()
                }) + greedy_pieces(c, self.max_piece_len as int, t) + tail
            }),
    {
        let ghost c = trie_contents(self.trie);
        let bytes = text.as_bytes();
        let ghost t = bytes@;
        let mut tokens: Vec<u32> = Vec::new();
        if bos {
            tokens.push(BOS);
        }
        let len = bytes.len();
        if len > 0 {
            let space: Vec<u8> = vec![32u8];
            assert(space@ == seq![32u8]);
            match trie_get(&self.trie, space.as_slice()) {
                Some(tok) => tokens.push(tok),
                None => {
                    return None;
                },
            }
        }
        let ghost head = tokens@;
        assert(t.subrange(0, len as int) =~= t);
        let mut at: usize = 0;
        while at < len
            invariant
                at <= len,
                len == t.len(),
                t == bytes@,
                c == trie_contents(self.trie),
                head + greedy_pieces(c, self.max_piece_len as int, t) == tokens@ + greedy_pieces(
                    c,
                    self.max_piece_len as int,
                    t.subrange(at as int, len as int),
                ),
            decreases len - at,
        {
            let ghost rest = t.subrange(at as int, len as int);
            let end = if len - at < self.max_piece_len { len } else { at + self.max_piece_len };
            let window = &bytes[at..end];
            let ghost w = window@;
            assert(w == rest.subrange(0, min(rest.len() as int, self.max_piece_len as int)));
            let found = trie_longest_prefix(&self.trie, window);
            let n: usize = match found {
                Some((n, _)) => n,
                None => 0,
            };
            proof {
                lemma_longest_key(c, w, n as int, found is Some);
            }
            if n > 0 {
                let tok = match found {
                    Some((_, v)) => v,
                    None => 0,
                };
                tokens.push(tok);
                proof {
                    assert(w.subrange(0, n as int) == rest.subrange(0, n as int));
                    assert(rest.subrange(n as int, rest.len() as int) =~= t.subrange(at + n, len as int));
                    assert(tokens@ + greedy_pieces(c, self.max_piece_len as int, t.subrange(at + n, len as int))
                        =~= tokens@.drop_last() + greedy_pieces(c, self.max_piece_len as int, rest));
                }
                at = at + n;
            } else {
                let lead = bytes[at];
                let width: usize = if lead < 0x80 { 1 } else if lead < 0xE0 { 2 } else if lead < 0xF0 { 3 } else { 4 };
                let k = if width < len - at { width } else { len - at };
                let ghost before = tokens@;
                let mut j: usize = 0;
                while j < k
                    invariant
                        j <= k,
                        at + k <= len,
                        len == t.len(),
                        t == bytes@,
                        tokens@ == before + t.subrange(at as int, at + j).map_values(|b: u8| (b as u32 + 3) as u32),
                    decreases k - j,
                {
                    tokens.push(bytes[at + j] as u32 + 3);
                    proof {
                        assert(t.subrange(at as int, at + j + 1).map_values(|b: u8| (b as u32 + 3) as u32)
                            =~= t.subrange(at as int, at + j).map_values(|b: u8| (b as u32 + 3) as u32)
                            + seq![(bytes@[at + j] as u32 + 3) as u32]);
                    }
                    j = j + 1;
                }
                proof {
                    assert(rest[0] == lead);
                    assert(rest.subrange(0, k as int) =~= t.subrange(at as int, at + k));
                    assert(rest.subrange(k as int, rest.len() as int) =~= t.subrange(at + k, len as int));
                    assert(tokens@ + greedy_pieces(c, self.max_piece_len as int, t.subrange(at + k, len as int))
                        =~= before + greedy_pieces(c, self.max_piece_len as int, rest));
                }
                at = at + k;
            }
        }
        proof {
            assert(t.subrange(len as int, len as int) =~= Seq::<u8>::empty());
            assert(t.subrange(0, len as int) =~= t);
        }
        if eos {
            tokens.push(EOS);
        }
        Some(tokens)
    }

    /// The text of piece `next` after token `token`.
    pub fn decode(&self, token: u32, next: u32) -> (r: Vec<u8>)
        requires
            (next as int) < self.words@.len(),
        ensures
            r@ == piece_text(token, self.words@[next as int]@),
    {
        decode_piece(token, self.words[next as usize].as_slice())
    }
}

/// The text of piece `p` after token `token`: a `<0xHH>` piece is that
/// byte, and a leading space is dropped right after `BOS`.
pub fn decode_piece(token: u32, p: &[u8]) -> (r: Vec<u8>)
    ensures
        r@ == piece_text(token, p@),
{
    if p.len() == 6 && p[0] == 60 && p[1] == 48 && p[2] == 120 && p[5] == 62 {
        if let (Some(hi), Some(lo)) = (hex_value(p[3]), hex_value(p[4])) {
            let mut out: Vec<u8> = Vec::new();
            out.push(hi * 16 + lo);
            return out;
        }
    }
    let start: usize = if token == BOS && p.len() > 0 && p[0] == 32 { 1 } else { 0 };
    let mut out: Vec<u8> = Vec::new();
    let mut i: usize = start;
    while i < p.len()
        invariant
            start <= i <= p@.len(),
            start <= 1,
            out@ == p@.subrange(start as int, i as int),
        decreases p@.len() - i,
    {
        out.push(p[i]);
        proof {
            assert(p@.subrange(start as int, i + 1) =~= p@.subrange(start as int, i as int) + seq![p@[i as int]]);
        }
        i = i + 1;
    }
    proof {
        assert(p@.subrange(0, p@.len() as int) =~= p@);
    }
    out
}

fn hex_value(b: u8) -> (r: Option<u8>)
    ensures
        r == hex_digit(b),
        r matches Some(v) ==> v < 16,
{
    if 48 <= b && b <= 57 {
        Some(b - 48)
    } else if 65 <= b && b <= 70 {
        Some(b - 55)
    } else if 97 <= b && b <= 102 {
        Some(b - 87)
    } else {
        None
    }
}

/// What the map reports is the spec's longest key, or nothing when that is
/// the empty prefix.
proof fn lemma_longest_key(c: Map<Seq<u8>, u32>, w: Seq<u8>, n: int, found: bool)
    requires
        0 <= n <= w.len(),
        found ==> c.contains_key(w.subrange(0, n)),
        found ==> forall|k: int| n < k <= w.len() ==> !c.contains_key(#[trigger] w.subrange(0, k)),
        !found ==> n == 0 && forall|k: int| 0 <= k <= w.len() ==> !c.contains_key(#[trigger] w.subrange(0, k)),
    ensures
        longest_key(c, w, w.len() as int) == if n > 0 { n } else { 0 },
{
    lemma_longest_key_from(c, w, n, w.len() as int);
}

proof fn lemma_longest_key_from(c: Map<Seq<u8>, u32>, w: Seq<u8>, n: int, m: int)
    requires
        0 <= n <= m <= w.len(),
        n > 0 ==> c.contains_key(w.subrange(0, n)),
        forall|k: int| n < k <= w.len() ==> !c.contains_key(#[trigger] w.subrange(0, k)),
    ensures
        longest_key(c, w, m) == if n > 0 { n } else { 0 },
    decreases m,
{
    if m > n {
        lemma_longest_key_from(c, w, n, m - 1);
    }
}

} // verus!
