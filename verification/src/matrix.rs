//! A rectangular matrix that keeps its cells in one vector, row after row.

use core::fmt::Display;
use core::ops::{Add, Mul, Sub};
use vstd::prelude::*;
use vstd::string::{to_string_from_display_ensures, StringExecFns};
use vstd::std_specs::ops::{AddSpec, AddSpecImpl, MulSpec, MulSpecImpl, SubSpec, SubSpecImpl};

verus! {

/// A matrix of `row` rows and `col` columns. The cell in row `i` and column
/// `j` is element `i * col + j` of `data`.
#[derive(PartialEq, Debug)]
pub struct Matrix<T> {
    data: Vec<T>,
    row: usize,
    col: usize,
}

/// What a matrix holds: its elements in row-major order and its two
/// dimensions.
pub struct MatrixView<T> {
    pub data: Seq<T>,
    pub row: nat,
    pub col: nat,
}

impl<T> MatrixView<T> {
    /// The number of cells of a matrix of these dimensions.
    pub open spec fn cells(self) -> nat {
        self.row * self.col
    }

    /// The elements suffice to fill every cell.
    pub open spec fn covered(self) -> bool {
        self.cells() <= self.data.len()
    }

    /// The cell in row `i` and column `j`.
    pub open spec fn at(self, i: int, j: int) -> T {
        self.data[i * self.col + j]
    }
}

impl<T> View for Matrix<T> {
    type V = MatrixView<T>;

    closed spec fn view(&self) -> MatrixView<T> {
        MatrixView { data: self.data@, row: self.row as nat, col: self.col as nat }
    }
}

impl<T: Copy> Matrix<T> {
    /// Creates a matrix of `row` rows and `col` columns that holds the
    /// elements of `values` in row-major order.
    pub fn new(row: usize, col: usize, values: &[T]) -> (m: Matrix<T>)
        ensures
            m@ == (MatrixView { data: values@, row: row as nat, col: col as nat }),
    {
        let mut v: Vec<T> = Vec::new();
        let mut i: usize = 0;
        while i < values.len()
            invariant
                i <= values.len(),
                v@ == values@.take(i as int),
            decreases values.len() - i,
        {
            v.push(values[i]);
            proof {
                assert(v@ =~= values@.take(i + 1));
            }
            i += 1;
        }
        proof {
            assert(v@ =~= values@);
        }
        Matrix { data: v, row, col }
    }

    /// Creates a matrix of `row` rows and `col` columns that holds no
    /// element yet.
    pub fn new_empty(row: usize, col: usize) -> (m: Matrix<T>)
        ensures
            m@ == (MatrixView { data: Seq::<T>::empty(), row: row as nat, col: col as nat }),
    {
        Matrix { data: Vec::new(), row, col }
    }

    /// Returns a shared reference to the elements.
    pub fn data(&self) -> (data: &Vec<T>)
        ensures
            data@ == self@.data,
    {
        &self.data
    }

    /// Returns a mutable reference to the elements. What the caller leaves
    /// in the vector is what the matrix holds afterwards; its dimensions
    /// stay.
    pub fn mut_data(&mut self) -> (data: &mut Vec<T>)
        ensures
            data@ == old(self)@.data,
            final(self)@ == (MatrixView {
                data: final(data)@,
                row: old(self)@.row,
                col: old(self)@.col,
            }),
    {
        &mut self.data
    }

    /// Returns the number of rows and the number of columns.
    pub fn size(&self) -> (size: (usize, usize))
        ensures
            size.0 == self@.row,
            size.1 == self@.col,
    {
        (self.row, self.col)
    }
}


impl<T: Add<Output = T>> MatrixView<T> {
    /// The dimensions agree, both operands hold an element for every cell,
    /// and each cell of `self` can be added to the cell of `rhs` in its place.
    pub open spec fn summable(self, rhs: Self) -> bool {
        &&& self.row == rhs.row
        &&& self.col == rhs.col
        &&& self.covered()
        &&& rhs.covered()
        &&& forall|n: int| 0 <= n < self.cells() ==> (#[trigger] self.data[n]).add_req(rhs.data[n])
    }

    /// The cell-by-cell sum of two matrices of the same dimensions.
    pub open spec fn plus(self, rhs: Self) -> Self {
        MatrixView {
            data: Seq::new(self.cells(), |n: int| self.data[n].add_spec(rhs.data[n])),
            row: self.row,
            col: self.col,
        }
    }
}

impl<T: Add<Output = T> + Copy> AddSpecImpl for Matrix<T> {
    /// Two matrices with the same cells need not be the same value, so the
    /// sum is stated through its view, at `add`, and not as a value here.
    open spec fn obeys_add_spec() -> bool {
        false
    }

    /// The dimensions agree, both operands hold an element for every cell,
    /// and each pair of cells can be added.
    open spec fn add_req(self, rhs: Self) -> bool {
        self@.summable(rhs@)
    }

    /// Some matrix that holds the sum.
    open spec fn add_spec(self, rhs: Self) -> Self {
        choose|sum: Self| sum@ == self@.plus(rhs@)
    }
}

impl<T: Add<Output = T> + Copy> Add for Matrix<T> {
    type Output = Self;

    /// Returns the sum of `self` and `rhs`, cell by cell.
    fn add(self, rhs: Self) -> (sum: Self)
        ensures
            sum@.row == self@.row,
            sum@.col == self@.col,
            sum@.data.len() == self@.cells(),
            T::obeys_add_spec() ==> sum@ == self@.plus(rhs@),
    {
        let mut v: Vec<T> = Vec::new();
        proof {
            assert(self.row * self.col == self@.cells());
            assert(self@.cells() <= self.data.len() <= usize::MAX);
        }
        let length: usize = self.row * self.col;
        let mut i: usize = 0;
        while i < length
            invariant
                i <= length,
                length == self@.cells(),
                self@.summable(rhs@),
                v@.len() == i,
                T::obeys_add_spec() ==> forall|n: int|
                    0 <= n < i ==> v@[n] == self@.data[n].add_spec(rhs@.data[n]),
            decreases length - i,
        {
            v.push(self.data[i] + rhs.data[i]);
            i += 1;
        }
        let sum = Matrix { data: v, row: self.row, col: self.col };
        proof {
            if T::obeys_add_spec() {
                assert(sum@.data =~= self@.plus(rhs@).data);
            }
        }
        sum
    }
}


impl<T: Sub<Output = T>> MatrixView<T> {
    /// The dimensions agree, both operands hold an element for every cell,
    /// and from each cell of `self` the cell of `rhs` in its place can be
    /// subtracted.
    pub open spec fn subtractable(self, rhs: Self) -> bool {
        &&& self.row == rhs.row
        &&& self.col == rhs.col
        &&& self.covered()
        &&& rhs.covered()
        &&& forall|n: int| 0 <= n < self.cells() ==> (#[trigger] self.data[n]).sub_req(rhs.data[n])
    }

    /// The cell-by-cell difference of two matrices of the same dimensions.
    pub open spec fn minus(self, rhs: Self) -> Self {
        MatrixView {
            data: Seq::new(self.cells(), |n: int| self.data[n].sub_spec(rhs.data[n])),
            row: self.row,
            col: self.col,
        }
    }
}

impl<T: Sub<Output = T> + Copy> SubSpecImpl for Matrix<T> {
    /// Two matrices with the same cells need not be the same value, so the
    /// difference is stated through its view, at `sub`, and not as a value
    /// here.
    open spec fn obeys_sub_spec() -> bool {
        false
    }

    /// The dimensions agree, both operands hold an element for every cell,
    /// and each pair of cells can be subtracted.
    open spec fn sub_req(self, rhs: Self) -> bool {
        self@.subtractable(rhs@)
    }

    /// Some matrix that holds the difference.
    open spec fn sub_spec(self, rhs: Self) -> Self {
        choose|difference: Self| difference@ == self@.minus(rhs@)
    }
}

impl<T: Sub<Output = T> + Copy> Sub for Matrix<T> {
    type Output = Self;

    /// Returns `self` minus `rhs`, cell by cell.
    fn sub(self, rhs: Self) -> (difference: Self)
        ensures
            difference@.row == self@.row,
            difference@.col == self@.col,
            difference@.data.len() == self@.cells(),
            T::obeys_sub_spec() ==> difference@ == self@.minus(rhs@),
    {
        let mut v: Vec<T> = Vec::new();
        proof {
            assert(self.row * self.col == self@.cells());
            assert(self@.cells() <= self.data.len() <= usize::MAX);
        }
        let length: usize = self.row * self.col;
        let mut i: usize = 0;
        while i < length
            invariant
                i <= length,
                length == self@.cells(),
                self@.subtractable(rhs@),
                v@.len() == i,
                T::obeys_sub_spec() ==> forall|n: int|
                    0 <= n < i ==> v@[n] == self@.data[n].sub_spec(rhs@.data[n]),
            decreases length - i,
        {
            v.push(self.data[i] - rhs.data[i]);
            i += 1;
        }
        let difference = Matrix { data: v, row: self.row, col: self.col };
        proof {
            if T::obeys_sub_spec() {
                assert(difference@.data =~= self@.minus(rhs@).data);
            }
        }
        difference
    }
}

/// Row `i`, column `j` lies inside a matrix of `rows` rows and `cols`
/// columns, at element `i * cols + j`.
pub proof fn lemma_cell_in_range(i: int, j: int, rows: int, cols: int)
    requires
        0 <= i < rows,
        0 <= j < cols,
    ensures
        0 <= i * cols <= i * cols + j < rows * cols,
{
    assert(i * cols + cols <= rows * cols) by (nonlinear_arith)
        requires
            0 <= i < rows,
            0 <= cols,
    ;
    assert(0 <= i * cols) by (nonlinear_arith)
        requires
            0 <= i,
            0 <= cols,
    ;
}

impl<T: Add<Output = T> + Mul<Output = T>> MatrixView<T> {
    /// The sum of the first `k` products of row `i` of `self` and column
    /// `j` of `rhs`, added one after the other to `zero`.
    pub open spec fn dot(self, rhs: Self, i: int, j: int, k: int, zero: T) -> T
        decreases k,
    {
        if k <= 0 {
            zero
        } else {
            self.dot(rhs, i, j, k - 1, zero).add_spec(self.at(i, k - 1).mul_spec(rhs.at(k - 1, j)))
        }
    }

    /// Each of the first `k` products of row `i` of `self` and column `j` of
    /// `rhs` can be formed, and can be added to the sum of those before it.
    pub open spec fn dot_defined(self, rhs: Self, i: int, j: int, k: int, zero: T) -> bool
        decreases k,
    {
        if k <= 0 {
            true
        } else {
            &&& self.dot_defined(rhs, i, j, k - 1, zero)
            &&& self.at(i, k - 1).mul_req(rhs.at(k - 1, j))
            &&& self.dot(rhs, i, j, k - 1, zero).add_req(
                self.at(i, k - 1).mul_spec(rhs.at(k - 1, j)),
            )
        }
    }
}

/// Where the first `n` steps of a product of a row and a column can be
/// computed, so can the first `k` of them, for `k` up to `n`.
pub proof fn lemma_dot_defined_before<T: Add<Output = T> + Mul<Output = T>>(
    a: MatrixView<T>,
    b: MatrixView<T>,
    i: int,
    j: int,
    k: int,
    n: int,
    zero: T,
)
    requires
        k <= n,
        a.dot_defined(b, i, j, n, zero),
    ensures
        a.dot_defined(b, i, j, k, zero),
    decreases n,
{
    if k < n && n > 0 {
        lemma_dot_defined_before(a, b, i, j, k, n - 1, zero);
    }
}

impl<T: Add<Output = T> + Mul<Output = T> + Default> MatrixView<T> {
    /// `value` is the product of row `i` of `self` and column `j` of `rhs`:
    /// the sum of their products, added one after the other to a default
    /// value of the element type.
    pub open spec fn is_dot(self, rhs: Self, i: int, j: int, value: T) -> bool {
        exists|zero: T| #[trigger]
            call_ensures(T::default, (), zero) && value == self.dot(rhs, i, j, self.col as int, zero)
    }

    /// The element type's `+` and `*` return what `add_spec` and `mul_spec`
    /// say, `self` has as many columns as `rhs` has rows, both operands hold
    /// an element for every cell, and every product of a row of `self` and a
    /// column of `rhs` can be computed, whatever default value the sum
    /// starts from.
    pub open spec fn multipliable(self, rhs: Self) -> bool {
        &&& T::obeys_add_spec()
        &&& T::obeys_mul_spec()
        &&& self.col == rhs.row
        &&& self.covered()
        &&& rhs.covered()
        &&& forall|zero: T, i: int, j: int|
            #![trigger self.dot_defined(rhs, i, j, self.col as int, zero)]
            call_ensures(T::default, (), zero) && 0 <= i < self.row && 0 <= j < rhs.col
                ==> self.dot_defined(rhs, i, j, self.col as int, zero)
    }

    /// `product` is the matrix product of `self` and `rhs`.
    pub open spec fn is_product(self, rhs: Self, product: Self) -> bool {
        &&& product.row == self.row
        &&& product.col == rhs.col
        &&& product.data.len() == product.cells()
        &&& forall|i: int, j: int|
            0 <= i < self.row && 0 <= j < rhs.col ==> #[trigger] self.is_dot(
                rhs,
                i,
                j,
                product.at(i, j),
            )
    }
}


impl<T: Add<Output = T> + Mul<Output = T> + Copy + Default> MulSpecImpl for Matrix<T> {
    /// Two matrices with the same cells need not be the same value, so the
    /// product is stated through its view, at `mul`, and not as a value
    /// here.
    open spec fn obeys_mul_spec() -> bool {
        false
    }

    /// `self` has as many columns as `rhs` has rows, both hold an element
    /// for every cell, and every cell of the product can be computed.
    open spec fn mul_req(self, rhs: Self) -> bool {
        self@.multipliable(rhs@)
    }

    /// Some matrix that holds the product.
    open spec fn mul_spec(self, rhs: Self) -> Self {
        choose|product: Self| self@.is_product(rhs@, product@)
    }
}

impl<T: Add<Output = T> + Mul<Output = T> + Copy + Default> Mul for Matrix<T> {
    type Output = Self;

    /// Returns the matrix product of `self` and `rhs`.
    fn mul(self, rhs: Self) -> (product: Self)
        ensures
            self@.is_product(rhs@, product@),
    {
        let ghost a = self@;
        let ghost b = rhs@;
        let mut w: Vec<T> = Vec::new();
        let mut i: usize = 0;
        while i < self.row
            invariant
                a == self@,
                b == rhs@,
                a.multipliable(b),
                i <= self.row,
                w@.len() == i * b.col,
                forall|p: int, q: int|
                    0 <= p < i && 0 <= q < b.col ==> #[trigger] a.is_dot(b, p, q, w@[p * b.col + q]),
            decreases self.row - i,
        {
            let mut j: usize = 0;
            while j < rhs.col
                invariant
                    a == self@,
                    b == rhs@,
                    a.multipliable(b),
                    i < self.row,
                    j <= rhs.col,
                    w@.len() == i * b.col + j,
                    forall|p: int, q: int|
                        0 <= p < i && 0 <= q < b.col ==> #[trigger] a.is_dot(
                            b,
                            p,
                            q,
                            w@[p * b.col + q],
                        ),
                    forall|q: int| 0 <= q < j ==> #[trigger] a.is_dot(b, i as int, q, w@[i * b.col + q]),
                decreases rhs.col - j,
            {
                let mut temp: T = T::default();
                let ghost zero = temp;
                let mut k: usize = 0;
                while k < self.col
                    invariant
                        a == self@,
                        b == rhs@,
                        a.multipliable(b),
                        i < self.row,
                        j < rhs.col,
                        k <= self.col,
                        call_ensures(T::default, (), zero),
                        temp == a.dot(b, i as int, j as int, k as int, zero),
                    decreases self.col - k,
                {
                    proof {
                        lemma_cell_in_range(i as int, k as int, a.row as int, a.col as int);
                        lemma_cell_in_range(k as int, j as int, b.row as int, b.col as int);
                        lemma_dot_defined_before(a, b, i as int, j as int, k + 1, a.col as int, zero);
                        assert(a.cells() <= self.data.len() <= usize::MAX);
                        assert(b.cells() <= rhs.data.len() <= usize::MAX);
                        assert(self.data@[i * self.col + k] == a.at(i as int, k as int));
                        assert(rhs.data@[k * rhs.col + j] == b.at(k as int, j as int));
                    }
                    let x: T = self.data[i * self.col + k] * rhs.data[k * rhs.col + j];
                    temp = temp + x;
                    k += 1;
                }
                let ghost before = w@;
                w.push(temp);
                proof {
                    assert forall|p: int, q: int| 0 <= p < i && 0 <= q < b.col implies #[trigger] a.is_dot(
                        b,
                        p,
                        q,
                        w@[p * b.col + q],
                    ) by {
                        lemma_cell_in_range(p, q, i as int, b.col as int);
                        assert(a.is_dot(b, p, q, before[p * b.col + q]));
                    }
                    assert forall|q: int| 0 <= q < j + 1 implies #[trigger] a.is_dot(
                        b,
                        i as int,
                        q,
                        w@[i * b.col + q],
                    ) by {
                        if q < j {
                            assert(a.is_dot(b, i as int, q, before[i * b.col + q]));
                        }
                    }
                }
                j += 1;
            }
            proof {
                assert((i + 1) * b.col == i * b.col + b.col) by (nonlinear_arith);
            }
            i += 1;
        }
        Matrix { data: w, row: self.row, col: rhs.col }
    }
}


/// The characters of each text of a sequence.
pub open spec fn characters(texts: Seq<String>) -> Seq<Seq<char>> {
    texts.map_values(|text: String| text@)
}

/// The `count` texts from `first` on, with one space between each two.
pub open spec fn joined(texts: Seq<Seq<char>>, first: int, count: int) -> Seq<char>
    decreases count,
{
    if count <= 0 {
        Seq::empty()
    } else if count == 1 {
        texts[first]
    } else {
        joined(texts, first, count - 1) + seq![' '] + texts[first + count - 1]
    }
}

/// The first `rows` rows of `cols` texts each, every row on a line of its
/// own that ends with a line feed.
pub open spec fn lines(texts: Seq<Seq<char>>, rows: int, cols: int) -> Seq<char>
    decreases rows,
{
    if rows <= 0 {
        Seq::empty()
    } else {
        lines(texts, rows - 1, cols) + joined(texts, (rows - 1) * cols, cols) + seq!['\n']
    }
}

/// A matrix of `rows` rows and `cols` columns written out: each row on a
/// line of its own, its texts separated by single spaces. A matrix without
/// columns is a single line feed if it has a row, and empty if it has none.
pub open spec fn layout(texts: Seq<Seq<char>>, rows: int, cols: int) -> Seq<char> {
    if cols <= 0 {
        if rows <= 0 {
            Seq::empty()
        } else {
            seq!['\n']
        }
    } else {
        lines(texts, rows, cols)
    }
}

/// Writes out a matrix of `row` rows and `col` columns whose cells have the
/// texts `texts`, in row-major order.
pub fn arrange(texts: &Vec<String>, row: usize, col: usize) -> (text: String)
    requires
        row * col <= texts.len(),
    ensures
        text@ == layout(characters(texts@), row as int, col as int),
{
    let ghost cells = characters(texts@);
    let mut s = String::new();
    proof {
        reveal_strlit("\n");
        reveal_strlit(" ");
    }
    if col == 0 {
        if row > 0 {
            s.append("\n");
            assert(s@ =~= seq!['\n']);
        }
        return s;
    }
    let mut i: usize = 0;
    while i < row
        invariant
            i <= row,
            col > 0,
            row * col <= texts.len(),
            cells == characters(texts@),
            "\n"@ == seq!['\n'],
            " "@ == seq![' '],
            s@ == lines(cells, i as int, col as int),
        decreases row - i,
    {
        let ghost start = s@;
        let mut j: usize = 0;
        while j < col
            invariant
                i < row,
                j <= col,
                row * col <= texts.len(),
                cells == characters(texts@),
                " "@ == seq![' '],
                s@ == start + joined(cells, i * col, j as int),
            decreases col - j,
        {
            proof {
                lemma_cell_in_range(i as int, j as int, row as int, col as int);
            }
            if j > 0 {
                s.append(" ");
            }
            s.append(texts[i * col + j].as_str());
            proof {
                assert(cells[i * col + j] == texts@[i * col + j]@);
                assert(s@ =~= start + joined(cells, i * col, j + 1));
            }
            j += 1;
        }
        s.append("\n");
        proof {
            assert((i + 1 - 1) * col == i * col);
            assert(s@ =~= lines(cells, i + 1, col as int));
        }
        i += 1;
    }
    s
}

impl<T: Display> MatrixView<T> {
    /// `texts` holds, for each cell, a text that the cell's element gives
    /// when it is displayed.
    pub open spec fn shown_as(self, texts: Seq<String>) -> bool {
        &&& texts.len() == self.cells()
        &&& forall|n: int|
            0 <= n < self.cells() ==> #[trigger] to_string_from_display_ensures::<T>(
                &self.data[n],
                texts[n],
            )
    }
}

impl<T: Display> Matrix<T> {
    /// Writes the matrix out: each row on a line of its own, and on each
    /// line the elements of the row as they display themselves, separated by
    /// single spaces.
    pub fn to_text(&self) -> (text: String)
        requires
            self@.covered(),
        ensures
            exists|texts: Seq<String>|
                {
                    &&& #[trigger] self@.shown_as(texts)
                    &&& text@ == layout(characters(texts), self@.row as int, self@.col as int)
                },
    {
        let mut texts: Vec<String> = Vec::new();
        proof {
            assert(self.row * self.col == self@.cells());
            assert(self@.cells() <= self.data.len() <= usize::MAX);
        }
        let length: usize = self.row * self.col;
        let mut n: usize = 0;
        while n < length
            invariant
                n <= length,
                length == self@.cells(),
                length <= self.data.len(),
                texts@.len() == n,
                forall|m: int|
                    0 <= m < n ==> #[trigger] to_string_from_display_ensures::<T>(
                        &self.data@[m],
                        texts@[m],
                    ),
            decreases length - n,
        {
            let shown: String = self.data[n].to_string();
            texts.push(shown);
            n += 1;
        }
        let text = arrange(&texts, self.row, self.col);
        proof {
            assert(self@.shown_as(texts@));
        }
        text
    }
}

} // verus!
