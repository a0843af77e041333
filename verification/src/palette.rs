use vstd::arithmetic::power2::{lemma2_to64, lemma_pow2_pos, lemma_pow2_unfold, pow2};
use vstd::prelude::*;

use crate::brightness::Brightness;

verus! {

/// Bit depth of the built-in density table.
pub const ASCII_MAP_NBITS: u32 = 6;

/// The built-in characters, from the densest-looking to blank.
pub open spec fn density_table() -> Seq<char> {
    seq![
        '$', '@', 'B', '%', '&', 'W', 'M', '#', '*', 'o', 'h', 'k', 'b', 'd', 'p', 'q',
        'w', 'm', 'Z', '0', 'Q', 'L', 'C', 'J', 'U', 'Y', 'X', 'z', 'c', 'u', 'n', 'x',
        'r', 'j', 'f', '/', '\\', '|', '(', ')', '1', '{', '}', '[', ']', '?', '-', '_',
        '+', '~', '<', '>', 'i', '!', 'I', ';', ':', ',', '"', '^', '`', '\'', '.', ' ',
    ]
}

fn density_chars() -> (t: [char; 64])
    ensures
        t@ == density_table(),
{
    let t = [
        '$', '@', 'B', '%', '&', 'W', 'M', '#', '*', 'o', 'h', 'k', 'b', 'd', 'p', 'q',
        'w', 'm', 'Z', '0', 'Q', 'L', 'C', 'J', 'U', 'Y', 'X', 'z', 'c', 'u', 'n', 'x',
        'r', 'j', 'f', '/', '\\', '|', '(', ')', '1', '{', '}', '[', ']', '?', '-', '_',
        '+', '~', '<', '>', 'i', '!', 'I', ';', ':', ',', '"', '^', '`', '\'', '.', ' ',
    ];
    assert(t@ =~= density_table());
    t
}

/// The palette of `2^nbits` characters: every `2^(6 - nbits)`-th character of
/// the density table, with the last slot forced to blank. There is none for a
/// bit depth outside `1..=6`.
pub open spec fn charset_spec(nbits: u32) -> Option<Seq<char>> {
    if 1 <= nbits <= ASCII_MAP_NBITS {
        let len = pow2(nbits as nat);
        let step = pow2((ASCII_MAP_NBITS - nbits) as nat) as int;
        Some(
            Seq::new(
                len,
                |i: int|
                    if i == len - 1 {
                        ' '
                    } else {
                        density_table()[i * step]
                    },
            ),
        )
    } else {
        None
    }
}

/// Returns the built-in palette for a bit depth, or `None` outside `1..=6`.
pub fn charset(nbits: u32) -> (r: Option<Vec<char>>)
    ensures
        match r {
            Some(chars) => charset_spec(nbits) == Some(chars@),
            None => charset_spec(nbits) is None,
        },
{
    if nbits < 1 || nbits > ASCII_MAP_NBITS {
        return None;
    }
    proof {
        lemma2_to64();
    }
    let table = density_chars();
    let mut len: usize = 64;
    let mut step: usize = 1;
    let mut k: u32 = ASCII_MAP_NBITS;
    while k > nbits
        invariant
            1 <= nbits <= k <= ASCII_MAP_NBITS,
            len == pow2(k as nat),
            len * step == 64,
            1 <= step,
            step == pow2((ASCII_MAP_NBITS - k) as nat),
        decreases k,
    {
        proof {
            lemma_pow2_pos(k as nat);
            lemma_pow2_unfold(k as nat);
            lemma_pow2_unfold((ASCII_MAP_NBITS - k + 1) as nat);
            assert((len / 2) * (step * 2) == 64) by (nonlinear_arith)
                requires
                    len * step == 64,
                    len % 2 == 0,
            ;
            assert(step <= 64) by (nonlinear_arith)
                requires
                    len * step == 64,
                    len >= 1,
            ;
        }
        len = len / 2;
        step = step * 2;
        k = k - 1;
    }
    let mut chars: Vec<char> = Vec::new();
    let mut i: usize = 0;
    while i < len
        invariant
            i <= len,
            len * step == 64,
            1 <= step,
            chars@.len() == i,
            table@ == density_table(),
            forall|j: int| 0 <= j < i ==> chars@[j] == density_table()[j * step],
        decreases len - i,
    {
        assert(i * step < 64) by (nonlinear_arith)
            requires
                i < len,
                len * step == 64,
                1 <= step,
        ;
        chars.push(table[i * step]);
        i = i + 1;
    }
    chars.set(len - 1, ' ');
    assert(charset_spec(nbits) == Some(chars@)) by {
        assert(chars@ =~= charset_spec(nbits).unwrap());
    }
    Some(chars)
}

/// Where a brightness falls in a palette of `2^nbits` characters: the sample
/// shifted right by `8 - nbits`, truncating.
pub open spec fn palette_index(brightness: Brightness, nbits: u32) -> int {
    ((brightness.0 as u32) >> ((8 - nbits) as u32)) as int
}

/// Whether a palette may have this many characters: a power of two up to 256.
pub open spec fn valid_palette_len(len: nat) -> bool {
    exists|k: nat| k <= 8 && len == #[trigger] pow2(k)
}

/// An ordered palette of `2^nbits` characters, indexed by brightness.
#[derive(Debug)]
pub struct AsciiMap {
    map: Vec<char>,
    nbits: u32,
}

impl View for AsciiMap {
    type V = Seq<char>;

    closed spec fn view(&self) -> Seq<char> {
        self.map@
    }
}

impl AsciiMap {
    /// The bit depth of the palette.
    pub closed spec fn spec_nbits(&self) -> u32 {
        self.nbits
    }

    /// The palette holds `2^nbits` characters, and `nbits` is at most 8.
    pub open spec fn wf(&self) -> bool {
        &&& self.spec_nbits() <= 8
        &&& self@.len() == pow2(self.spec_nbits() as nat)
    }

    /// Every palette is well formed.
    #[verifier::type_invariant]
    pub open spec fn inv(&self) -> bool {
        self.wf()
    }

    /// Builds the palette from its characters; the bit depth is the base-two
    /// logarithm of their number.
    pub fn new(map: Vec<char>) -> (r: Self)
        requires
            valid_palette_len(map@.len()),
        ensures
            r.wf(),
            r@ == map@,
    {
        let ghost k = choose|k: nat| k <= 8 && map@.len() == #[trigger] pow2(k);
        let len = map.len();
        let mut nbits: u32 = 0;
        let mut size: usize = 1;
        proof {
            lemma2_to64();
        }
        while size < len
            invariant
                k <= 8,
                len == pow2(k),
                nbits <= k,
                size == pow2(nbits as nat),
            decreases k - nbits,
        {
            proof {
                lemma2_to64();
                lemma_pow2_unfold((nbits + 1) as nat);
                assert(nbits < k);
            }
            size = size * 2;
            nbits = nbits + 1;
        }
        proof {
            lemma2_to64();
        }
        AsciiMap { map, nbits }
    }

    /// The characters, in palette order.
    pub fn chars(&self) -> (r: &[char])
        ensures
            r@ == self@,
    {
        self.map.as_slice()
    }

    /// The bit depth of the palette.
    pub fn nbits(&self) -> (r: u32)
        ensures
            r == self.spec_nbits(),
            self.wf(),
    {
        proof {
            use_type_invariant(self);
        }
        self.nbits
    }

    /// Reverses the palette in place, so that the densest character becomes
    /// the sparsest.
    pub fn invert(&mut self)
        ensures
            final(self)@ == old(self)@.reverse(),
            final(self).spec_nbits() == old(self).spec_nbits(),
            final(self).wf(),
    {
        proof {
            use_type_invariant(&*self);
        }
        let n = self.map.len();
        let mut i: usize = 0;
        while i < n / 2
            invariant
                n == self.map@.len(),
                n == old(self).map@.len(),
                self.nbits == old(self).nbits,
                self.wf(),
                i <= n / 2,
                forall|j: int| 0 <= j < i ==> self.map@[j] == old(self).map@[n - 1 - j],
                forall|j: int| 0 <= j < i ==> self.map@[n - 1 - j] == old(self).map@[j],
                forall|j: int| i <= j < n - i ==> self.map@[j] == old(self).map@[j],
            decreases n / 2 - i,
        {
            let a = self.map[i];
            let b = self.map[n - 1 - i];
            self.map[i] = b;
            self.map[n - 1 - i] = a;
            i = i + 1;
        }
        assert(self.map@ =~= old(self).map@.reverse());
    }

    /// The character that stands for a brightness.
    pub fn index(&self, idx: Brightness) -> (c: &char)
        ensures
            0 <= palette_index(idx, self.spec_nbits()) < self@.len(),
            *c == self@[palette_index(idx, self.spec_nbits())],
    {
        proof {
            use_type_invariant(self);
            lemma_index_in_range(idx, self.nbits);
        }
        let i = (idx.0 as u32) >> (8 - self.nbits);
        &self.map[i as usize]
    }
}

impl Clone for AsciiMap {
    fn clone(&self) -> (r: Self)
        ensures
            r@ == self@,
            r.spec_nbits() == self.spec_nbits(),
    {
        proof {
            use_type_invariant(self);
        }
        let map = self.map.clone();
        assert(map@ =~= self.map@);
        AsciiMap { map, nbits: self.nbits }
    }
}

impl Brightness {
    /// The palette character that stands for this brightness.
    pub fn as_ascii(self, map: &AsciiMap) -> (c: char)
        ensures
            0 <= palette_index(self, map.spec_nbits()) < map@.len(),
            c == map@[palette_index(self, map.spec_nbits())],
    {
        *map.index(self)
    }
}

/// A brightness never indexes past a palette of `2^nbits` characters.
pub proof fn lemma_index_in_range(brightness: Brightness, nbits: u32)
    requires
        nbits <= 8,
    ensures
        0 <= palette_index(brightness, nbits) < pow2(nbits as nat),
{
    let b = brightness.0 as u32;
    let shift = (8 - nbits) as u32;
    assert((b >> shift) < (1u32 << nbits)) by (bit_vector)
        requires
            b < 256,
            nbits <= 8,
            shift == 8 - nbits,
    ;
    assert((1u32 << nbits) == pow2(nbits as nat)) by {
        lemma2_to64();
        vstd::bits::lemma_u32_shl_is_mul(1u32, nbits);
    }
}

/// For every bit depth in `1..=6` the built-in palette holds exactly
/// `2^nbits` characters, and the last of them is a blank.
pub proof fn lemma_charset_shape(nbits: u32)
    requires
        1 <= nbits <= ASCII_MAP_NBITS,
    ensures
        charset_spec(nbits) is Some,
        charset_spec(nbits).unwrap().len() == pow2(nbits as nat),
        charset_spec(nbits).unwrap().last() == ' ',
        valid_palette_len(charset_spec(nbits).unwrap().len()),
{
    lemma_pow2_pos(nbits as nat);
    assert(valid_palette_len(pow2(nbits as nat)));
}

/// The palette index never decreases as the brightness grows.
pub proof fn lemma_index_monotonic(darker: Brightness, brighter: Brightness, nbits: u32)
    requires
        nbits <= 8,
        darker.0 <= brighter.0,
    ensures
        palette_index(darker, nbits) <= palette_index(brighter, nbits),
{
    let a = darker.0 as u32;
    let b = brighter.0 as u32;
    let shift = (8 - nbits) as u32;
    assert((a >> shift) <= (b >> shift)) by (bit_vector)
        requires
            a <= b,
            shift <= 8,
    ;
}

/// The brightest sample stands for the last character of a palette, whatever
/// its bit depth.
pub proof fn lemma_brightest_is_last(nbits: u32)
    requires
        nbits <= 8,
    ensures
        palette_index(Brightness(255), nbits) == pow2(nbits as nat) - 1,
{
    let shift = (8 - nbits) as u32;
    assert((255u32 >> shift) == (1u32 << nbits) - 1) by (bit_vector)
        requires
            nbits <= 8,
            shift == 8 - nbits,
    ;
    lemma2_to64();
    vstd::bits::lemma_u32_shl_is_mul(1u32, nbits);
}

/// Inverting a palette twice gives back the palette.
pub proof fn lemma_invert_involution(palette: Seq<char>)
    ensures
        palette.reverse().reverse() == palette,
{
    assert(palette.reverse().reverse() =~= palette);
}

} // verus!
