//! Square integer matrices, and those that are their own inverse.
use vstd::prelude::*;

verus! {

/// Why a list of integers is not an involutory matrix.
#[derive(Debug)]
pub enum MatError {
    /// The number of elements, which is not a perfect square.
    NotSquare(usize),
    /// The elements, read row by row, of a matrix whose square is not the identity.
    NotInvolutory(Vec<i32>),
}

/// The square of `n`.
pub open spec fn sq(n: nat) -> nat {
    n * n
}

/// Whether `len` elements fill a square matrix.
pub open spec fn is_square_len(len: nat) -> bool {
    exists|n: nat| #[trigger] sq(n) == len
}

/// The entry at `(row, col)` of the row-major square matrix `data` of side `n`.
pub open spec fn entry(data: Seq<i32>, n: nat, row: int, col: int) -> int {
    data[n * row + col] as int
}

/// The sum of the first `k` terms of row `row` of `data` times column `col`.
pub open spec fn dot(data: Seq<i32>, n: nat, row: int, col: int, k: nat) -> int
    decreases k,
{
    if k == 0 {
        0
    } else {
        dot(data, n, row, col, (k - 1) as nat) + entry(data, n, row, (k - 1) as int) * entry(
            data,
            n,
            (k - 1) as int,
            col,
        )
    }
}

/// The entry at `(row, col)` of the square of the matrix.
pub open spec fn square_entry(data: Seq<i32>, n: nat, row: int, col: int) -> int {
    dot(data, n, row, col, n)
}

/// The entry at `(row, col)` of the identity matrix.
pub open spec fn identity_entry(row: int, col: int) -> int {
    if row == col {
        1
    } else {
        0
    }
}

/// Whether the matrix of side `n` equals its own inverse: its square is the identity.
pub open spec fn is_involutory(data: Seq<i32>, n: nat) -> bool {
    forall|row: int, col: int|
        0 <= row < n && 0 <= col < n ==> #[trigger] square_entry(data, n, row, col)
            == identity_entry(row, col)
}

/// Whether row `row` of the matrix equals row `row` of the identity.
pub open spec fn is_identity_row(data: Seq<i32>, n: nat, row: int) -> bool {
    forall|col: int| 0 <= col < n ==> #[trigger] entry(data, n, row, col) == identity_entry(row, col)
}

proof fn lemma_index_bound(n: nat, row: nat, col: nat)
    requires
        row < n,
        col < n,
    ensures
        n * row + col < n * n,
{
    assert(n * row + col < n * n) by (nonlinear_arith)
        requires
            row < n,
            col < n,
    ;
}

/// A square matrix of integers, stored row by row.
#[derive(Debug)]
pub struct SquareMat {
    data: Vec<i32>,
    size: usize,
}

impl SquareMat {
    /// The elements, row by row.
    pub closed spec fn elems(&self) -> Seq<i32> {
        self.data@
    }

    /// The side of the matrix.
    pub closed spec fn side(&self) -> nat {
        self.size as nat
    }

    pub open spec fn wf(&self) -> bool {
        self.elems().len() == self.side() * self.side()
    }

    /// The number of rows, which is also the number of columns.
    pub fn size(&self) -> (r: usize)
        ensures
            r == self.side(),
    {
        self.size
    }

    /// The entry at `(row, col)`.
    pub fn get(&self, row: usize, col: usize) -> (r: i32)
        requires
            self.wf(),
            row < self.side(),
            col < self.side(),
        ensures
            r as int == entry(self.elems(), self.side(), row as int, col as int),
    {
        let len = self.data.len();
        proof {
            lemma_index_bound(self.size as nat, row as nat, col as nat);
            assert(self.size * row <= self.size * row + col);
        }
        self.data[self.size * row + col]
    }

    /// Whether row `row` equals the same row of the identity, so that the
    /// transform leaves that coordinate as it is.
    pub fn nop(&self, row: usize) -> (r: bool)
        requires
            self.wf(),
            row < self.side(),
        ensures
            r == is_identity_row(self.elems(), self.side(), row as int),
    {
        let mut col: usize = 0;
        while col < self.size
            invariant
                self.wf(),
                row < self.side(),
                col <= self.side(),
                forall|c: int|
                    0 <= c < col ==> #[trigger] entry(self.elems(), self.side(), row as int, c)
                        == identity_entry(row as int, c),
            decreases self.size - col,
        {
            let x = self.get(row, col);
            let want: i32 = if row == col {
                1
            } else {
                0
            };
            if x != want {
                return false;
            }
            col = col + 1;
        }
        true
    }

    /// Arranges `data` as a square matrix, when its length is a perfect square.
    fn new(data: Vec<i32>) -> (r: Result<Self, MatError>)
        ensures
            match r {
                Ok(m) => m.wf() && m.elems() == data@ && is_square_len(data.len() as nat),
                Err(e) => e == MatError::NotSquare(data.len()) && !is_square_len(data.len() as nat),
            },
    {
        let len = data.len();
        let size = isqrt(len);
        if size * size != len {
            proof {
                lemma_not_square(len as nat, size as nat);
            }
            return Err(MatError::NotSquare(len));
        }
        let m = SquareMat { data, size };
        assert(is_square_len(len as nat)) by {
            assert(sq(size as nat) == len as nat);
        }
        Ok(m)
    }

    /// Whether the square of the matrix is the identity.
    fn square_is_id(&self) -> (r: bool)
        requires
            self.wf(),
        ensures
            r == is_involutory(self.elems(), self.side()),
    {
        let n = self.size;
        let mut row: usize = 0;
        while row < n
            invariant
                self.wf(),
                n == self.side(),
                row <= n,
                forall|r: int, c: int|
                    0 <= r < row && 0 <= c < n ==> #[trigger] square_entry(self.elems(), n as nat, r, c)
                        == identity_entry(r, c),
            decreases n - row,
        {
            let mut col: usize = 0;
            while col < n
                invariant
                    self.wf(),
                    n == self.side(),
                    row < n,
                    col <= n,
                    forall|r: int, c: int|
                        0 <= r < row && 0 <= c < n ==> #[trigger] square_entry(self.elems(), n as nat, r, c)
                            == identity_entry(r, c),
                    forall|c: int|
                        0 <= c < col ==> #[trigger] square_entry(self.elems(), n as nat, row as int, c)
                            == identity_entry(row as int, c),
                decreases n - col,
            {
                let v = self.square_at(row, col);
                let want: i128 = if row == col {
                    1
                } else {
                    0
                };
                if v != want {
                    return false;
                }
                col = col + 1;
            }
            row = row + 1;
        }
        true
    }

    /// The entry at `(row, col)` of the square of the matrix, computed exactly.
    fn square_at(&self, row: usize, col: usize) -> (r: i128)
        requires
            self.wf(),
            row < self.side(),
            col < self.side(),
        ensures
            r as int == square_entry(self.elems(), self.side(), row as int, col as int),
    {
        let n = self.size;
        let len = self.data.len();
        proof {
            assert(n * n <= usize::MAX) by (nonlinear_arith)
                requires
                    self.elems().len() == n * n,
                    self.elems().len() == len,
                    len <= usize::MAX,
            ;
            assert(n <= 0x1_0000_0000) by (nonlinear_arith)
                requires
                    n * n <= usize::MAX,
                    usize::MAX <= 0xffff_ffff_ffff_ffff,
            ;
        }
        let mut acc: i128 = 0;
        let mut k: usize = 0;
        while k < n
            invariant
                self.wf(),
                n == self.side(),
                n <= 0x1_0000_0000,
                row < n,
                col < n,
                k <= n,
                acc as int == dot(self.elems(), n as nat, row as int, col as int, k as nat),
                -(k as int) * 0x4000_0000_0000_0000 <= acc <= (k as int) * 0x4000_0000_0000_0000,
            decreases n - k,
        {
            let a = self.get(row, k) as i128;
            let b = self.get(k, col) as i128;
            assert(-0x4000_0000_0000_0000 <= a * b <= 0x4000_0000_0000_0000) by (nonlinear_arith)
                requires
                    -0x8000_0000 <= a <= 0x7fff_ffff,
                    -0x8000_0000 <= b <= 0x7fff_ffff,
            ;
            assert((k as int + 1) * 0x4000_0000_0000_0000 <= 0x4000_0000_4000_0000_0000_0000)
                by (nonlinear_arith)
                requires
                    k < 0x1_0000_0000,
            ;
            acc = acc + a * b;
            k = k + 1;
        }
        acc
    }
}

/// The integer square root: the largest `s` with `s * s <= n`.
fn isqrt(n: usize) -> (s: usize)
    ensures
        s * s <= n,
        n < (s + 1) * (s + 1),
{
    let mut s: usize = 0;
    loop
        invariant
            s * s <= n,
            s < 0x1_0000_0000,
        decreases n - s,
    {
        let t: u128 = s as u128 + 1;
        assert(t * t <= 0x1_0000_0000_0000_0000) by (nonlinear_arith)
            requires
                t <= 0x1_0000_0000,
        ;
        if t * t > n as u128 {
            return s;
        }
        assert(s + 1 <= n) by (nonlinear_arith)
            requires
                (s + 1) * (s + 1) <= n,
        ;
        s = s + 1;
        assert(s < 0x1_0000_0000) by (nonlinear_arith)
            requires
                s * s <= n,
                n <= 0xffff_ffff_ffff_ffff,
        ;
    }
}

proof fn lemma_not_square(n: nat, s: nat)
    requires
        s * s <= n,
        n < (s + 1) * (s + 1),
        s * s != n,
    ensures
        !is_square_len(n),
{
    assert forall|k: nat| #[trigger] sq(k) != n by {
        if k <= s {
            assert(k * k <= s * s) by (nonlinear_arith)
                requires
                    k <= s,
            ;
        } else {
            assert(k * k >= (s + 1) * (s + 1)) by (nonlinear_arith)
                requires
                    k >= s + 1,
            ;
        }
    }
}

/// A square matrix whose square is the identity. Its validity is
/// established once, when it is built.
#[derive(Debug)]
pub struct InvlMat {
    mat: SquareMat,
}

impl InvlMat {
    #[verifier::type_invariant]
    closed spec fn inv(&self) -> bool {
        self.mat.wf() && is_involutory(self.mat.elems(), self.mat.side())
    }

    /// The underlying square matrix.
    pub closed spec fn square(&self) -> SquareMat {
        self.mat
    }

    pub open spec fn wf(&self) -> bool {
        self.square().wf() && is_involutory(self.square().elems(), self.square().side())
    }

    /// Validates the row-major elements `data` as an involutory matrix.
    pub fn new(data: Vec<i32>) -> (r: Result<Self, MatError>)
        ensures
            !is_square_len(data.len() as nat) <==> r == Err::<Self, MatError>(
                MatError::NotSquare(data.len()),
            ),
            r is Ok <==> exists|n: nat| #[trigger] sq(n) == data.len() && is_involutory(data@, n),
            r matches Err(MatError::NotInvolutory(d)) ==> d@ == data@,
            r matches Err(MatError::NotSquare(_)) ==> !is_square_len(data.len() as nat),
            is_square_len(data.len() as nat) && r is Err ==> r matches Err(MatError::NotInvolutory(_)),
            r matches Ok(m) ==> m.wf() && m.square().elems() == data@ && m.square().side()
                * m.square().side() == data.len(),
    {
        let mat = match SquareMat::new(data) {
            Ok(m) => m,
            Err(e) => return Err(e),
        };
        if mat.square_is_id() {
            assert(sq(mat.side()) == data@.len() && is_involutory(data@, mat.side()));
            Ok(InvlMat { mat })
        } else {
            proof {
                assert forall|n: nat| #[trigger] sq(n) == mat.elems().len() implies n == mat.side() by {
                    lemma_unique_root(n, mat.side());
                }
            }
            Err(MatError::NotInvolutory(mat.data))
        }
    }

    /// The validated matrix.
    pub fn matrix(&self) -> (r: &SquareMat)
        ensures
            *r == self.square(),
            r.wf(),
            is_involutory(r.elems(), r.side()),
    {
        proof {
            use_type_invariant(self);
        }
        &self.mat
    }
}

proof fn lemma_unique_root(a: nat, b: nat)
    requires
        a * a == b * b,
    ensures
        a == b,
{
    if a < b {
        assert(a * a < b * b) by (nonlinear_arith)
            requires
                a < b,
        ;
    } else if a > b {
        assert(a * a > b * b) by (nonlinear_arith)
            requires
                a > b,
        ;
    }
}

} // verus!
