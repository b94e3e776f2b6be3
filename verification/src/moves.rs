//! Move sequences and their enumeration order.
//!
//! A move sequence is an ordered list of slide directions (`0..=3`). The
//! enumerator walks every sequence of each length `n` by counting a code
//! through `0..4^n` and reading its base-4 digits, low digit first; all
//! sequences of length 1 come before all of length 2, and so on.

use vstd::prelude::*;

verus! {

/// `4^n`, the number of direction sequences of length `n`.
pub open spec fn pow4(n: nat) -> nat
    decreases n,
{
    if n == 0 {
        1
    } else {
        4 * pow4((n - 1) as nat)
    }
}

/// `4 + 4^2 + ... + 4^n`, the number of sequences of length 1 to `n`.
pub open spec fn geom4(n: nat) -> nat
    decreases n,
{
    if n == 0 {
        0
    } else {
        geom4((n - 1) as nat) + pow4(n)
    }
}

/// Every direction in the sequence is one of the four slide directions.
pub open spec fn valid_dirs(s: Seq<u8>) -> bool {
    forall|i: int| 0 <= i < s.len() ==> #[trigger] s[i] < 4
}

/// The direction sequence of length `n` encoded by `code` in base 4,
/// low digit first.
pub open spec fn dirs_of_code(code: int, n: nat) -> Seq<u8> {
    Seq::new(n, |i: int| ((code / (pow4(i as nat) as int)) % 4) as u8)
}

/// All sequences of length `n`, in increasing order of their codes.
pub open spec fn codes_of_len(n: nat) -> Seq<Seq<u8>> {
    Seq::new(pow4(n), |b: int| dirs_of_code(b, n))
}

/// Every sequence of length 1 to `max`, in enumeration order: shorter
/// lengths first, and increasing codes within a length.
pub open spec fn all_seqs(max: nat) -> Seq<Seq<u8>>
    decreases max,
{
    if max == 0 {
        Seq::empty()
    } else {
        all_seqs((max - 1) as nat) + codes_of_len(max)
    }
}

/// Every sequence in a list holds valid directions.
pub open spec fn valid_seq_list(l: Seq<Seq<u8>>) -> bool {
    forall|i: int| 0 <= i < l.len() ==> valid_dirs(#[trigger] l[i])
}

pub proof fn lemma_pow4_pos(n: nat)
    ensures
        pow4(n) >= 1,
    decreases n,
{
    if n > 0 {
        lemma_pow4_pos((n - 1) as nat);
    }
}

pub proof fn lemma_pow4_mono(m: nat, n: nat)
    requires
        m <= n,
    ensures
        pow4(m) <= pow4(n),
    decreases n,
{
    if m < n {
        lemma_pow4_mono(m, (n - 1) as nat);
    }
}

/// The largest power the enumerator ever needs still fits in a `u64`.
pub proof fn lemma_pow4_31()
    ensures
        pow4(31) == 0x4000000000000000,
{
    reveal_with_fuel(pow4, 32);
}

/// The whole search space up to depth 31 fits in a `u64`.
pub proof fn lemma_geom4_bound(n: nat)
    requires
        n <= 31,
    ensures
        geom4(n) < 2 * pow4(n),
        geom4(n) < 0x8000000000000000,
    decreases n,
{
    if n == 0 {
        lemma_pow4_pos(0);
    } else {
        lemma_geom4_bound((n - 1) as nat);
        lemma_pow4_mono((n - 1) as nat, n);
    }
    lemma_pow4_mono(n, 31);
    lemma_pow4_31();
}

/// Decoded sequences hold valid directions.
pub proof fn lemma_dirs_of_code_valid(code: int, n: nat)
    ensures
        valid_dirs(dirs_of_code(code, n)),
{
    assert forall|i: int| 0 <= i < n implies #[trigger] dirs_of_code(code, n)[i] < 4 by {
        assert(0 <= (code / (pow4(i as nat) as int)) % 4 < 4);
    }
}

/// The enumeration covers `4 + 4^2 + ... + 4^max` sequences in all.
pub proof fn lemma_all_seqs_len(max: nat)
    ensures
        all_seqs(max).len() == geom4(max),
    decreases max,
{
    if max > 0 {
        lemma_all_seqs_len((max - 1) as nat);
    }
}

/// Every enumerated sequence holds valid directions.
pub proof fn lemma_all_seqs_valid(max: nat)
    ensures
        valid_seq_list(all_seqs(max)),
    decreases max,
{
    if max > 0 {
        lemma_all_seqs_valid((max - 1) as nat);
        assert forall|i: int| 0 <= i < all_seqs(max).len() implies valid_dirs(
            #[trigger] all_seqs(max)[i],
        ) by {
            if i < all_seqs((max - 1) as nat).len() {
                assert(all_seqs(max)[i] == all_seqs((max - 1) as nat)[i]);
            } else {
                let b = i - all_seqs((max - 1) as nat).len();
                assert(all_seqs(max)[i] == dirs_of_code(b, max));
                lemma_dirs_of_code_valid(b, max);
            }
        }
    }
}

/// `4^n`, computed by repeated multiplication.
pub fn pow4_exec(n: u64) -> (r: u64)
    requires
        n <= 31,
    ensures
        r as nat == pow4(n as nat),
{
    let mut r: u64 = 1;
    let mut i: u64 = 0;
    while i < n
        invariant
            i <= n <= 31,
            r as nat == pow4(i as nat),
        decreases n - i,
    {
        proof {
            lemma_pow4_mono((i + 1) as nat, 31);
            lemma_pow4_31();
        }
        r = r * 4;
        i = i + 1;
    }
    r
}

/// The letter naming one slide direction.
pub open spec fn dir_char(d: u8) -> char {
    if d == 0 {
        'U'
    } else if d == 1 {
        'R'
    } else if d == 2 {
        'D'
    } else {
        'L'
    }
}

/// The rendering of a move sequence: one letter per direction.
pub open spec fn moves_text(s: Seq<u8>) -> Seq<char> {
    Seq::new(s.len(), |i: int| dir_char(s[i]))
}

/// An ordered list of the slide directions taken to reach a state.
pub struct MoveSeq(pub Vec<u8>);

impl View for MoveSeq {
    type V = Seq<u8>;

    open spec fn view(&self) -> Seq<u8> {
        self.0@
    }
}

impl MoveSeq {
    /// The number of moves in the sequence.
    pub fn len(&self) -> (n: usize)
        ensures
            n == self@.len(),
    {
        self.0.len()
    }

    /// Display the sequence concisely, one letter per direction.
    pub fn render(&self) -> (out: String)
        ensures
            out@ == moves_text(self@),
    {
        let mut out = String::from_str("");
        proof {
            reveal_strlit("");
            assert(out@ =~= moves_text(self@).take(0));
        }
        let mut i: usize = 0;
        while i < self.0.len()
            invariant
                i <= self@.len(),
                out@ == moves_text(self@).take(i as int),
            decreases self@.len() - i,
        {
            let d = self.0[i];
            let piece = if d == 0 {
                "U"
            } else if d == 1 {
                "R"
            } else if d == 2 {
                "D"
            } else {
                "L"
            };
            proof {
                reveal_strlit("U");
                reveal_strlit("R");
                reveal_strlit("D");
                reveal_strlit("L");
                assert(piece@ =~= seq![dir_char(self@[i as int])]);
            }
            out.append(piece);
            proof {
                assert(out@ =~= moves_text(self@).take(i as int + 1));
            }
            i = i + 1;
        }
        proof {
            assert(moves_text(self@).take(self@.len() as int) =~= moves_text(self@));
        }
        out
    }
}

/// A copy of a direction list.
pub fn copy_dirs(v: &Vec<u8>) -> (r: Vec<u8>)
    ensures
        r@ == v@,
{
    let mut r: Vec<u8> = Vec::new();
    let mut i: usize = 0;
    while i < v.len()
        invariant
            i <= v@.len(),
            r@ == v@.take(i as int),
        decreases v@.len() - i,
    {
        r.push(v[i]);
        proof {
            assert(r@ =~= v@.take(i as int + 1));
        }
        i = i + 1;
    }
    proof {
        assert(r@ =~= v@);
    }
    r
}

} // verus!
