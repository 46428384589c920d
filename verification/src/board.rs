//! The board: a backtracking generator that fills all 81 cells, a clue
//! remover, and the solver that tracks clues, the active grid and the
//! solved grid.

use vstd::prelude::*;
use vstd::pervasive::unreached;

use crate::cell::{box_of, Cell, CellVal, Coord, Error, ErrorKind};

verus! {

/// Row (1..=9) of the cell at row-major position `t` (0..=80).
pub open spec fn row_of_pos(t: int) -> int {
    t / 9 + 1
}

/// Column (1..=9) of the cell at row-major position `t` (0..=80).
pub open spec fn col_of_pos(t: int) -> int {
    t % 9 + 1
}

/// Row-major position (0..=80) of the coordinate `(r, c)`, both 1..=9.
pub open spec fn pos_index(r: int, c: int) -> int {
    (r - 1) * 9 + (c - 1)
}

/// Whether the cells at row-major positions `t` and `u` share a row, a
/// column or a 3x3 box, so that they may not hold the same digit.
pub open spec fn same_group(t: int, u: int) -> bool {
    ||| row_of_pos(t) == row_of_pos(u)
    ||| col_of_pos(t) == col_of_pos(u)
    ||| box_of(row_of_pos(t), col_of_pos(t)) == box_of(row_of_pos(u), col_of_pos(u))
}

/// A fully and correctly filled grid, as a row-major sequence of digits:
/// 81 values, each 1..=9, no two equal values sharing a row, column or box.
pub open spec fn complete_grid(g: Seq<int>) -> bool {
    &&& g.len() == 81
    &&& forall|t: int| 0 <= t < 81 ==> 1 <= #[trigger] g[t] <= 9
    &&& forall|t: int, u: int|
        0 <= t < 81 && 0 <= u < 81 && t != u && same_group(t, u) ==> #[trigger] g[t]
            != #[trigger] g[u]
}

/// How many positions of the grid hold a digit rather than an empty cell.
pub open spec fn count_filled(g: Seq<int>) -> int
    decreases g.len(),
{
    if g.len() == 0 {
        0
    } else {
        count_filled(g.drop_last()) + if g.last() != 0 {
            1int
        } else {
            0int
        }
    }
}

#[verifier::external_type_specification]
#[verifier::external_body]
pub struct ExThreadRng(rand::rngs::ThreadRng);

/// Relies on rand::rng: it hands out the thread-local random generator.
/// Nothing is promised of it; every draw through it is nondeterministic.
/// (It aborts only if the operating system's randomness source fails at
/// first use — an environmental failure, independent of any input.)
#[verifier::external_body]
fn fresh_rng() -> rand::rngs::ThreadRng {
    rand::rng()
}

/// Relies on rand::seq::SliceRandom::shuffle: it permutes the slice in
/// place, so afterwards the vector holds the same elements as before
/// (equal as multisets, hence with the same length), in some order about
/// which nothing is promised.
#[verifier::external_body]
fn shuffle<T>(v: &mut Vec<T>, rng: &mut rand::rngs::ThreadRng)
    ensures
        final(v)@.to_multiset() == old(v)@.to_multiset(),
        final(v)@.len() == old(v)@.len(),
{
    rand::seq::SliceRandom::shuffle(v.as_mut_slice(), rng)
}

/// Whether two coordinates share a row, a column or a 3x3 box.
pub open spec fn coord_peers(a: Coord, b: Coord) -> bool {
    ||| a.spec_row() == b.spec_row()
    ||| a.spec_col() == b.spec_col()
    ||| box_of(a.spec_row(), a.spec_col()) == box_of(b.spec_row(), b.spec_col())
}

/// The board: the ordered row-major sequence of cells, which during
/// generation doubles as the backtracking stack, and the mapping from each
/// position to its value in the solved grid.
pub struct Board {
    cells: Vec<Cell>,
    pos_to_val: Vec<CellVal>,
}

impl Board {
    /// The cells, in row-major placement order.
    pub closed spec fn spec_cells(&self) -> Seq<Cell> {
        self.cells@
    }

    /// The solved grid, as digits in row-major order.
    pub closed spec fn spec_solved(&self) -> Seq<int> {
        self.pos_to_val@.map_values(|v: CellVal| v.as_int())
    }

    /// The playable grid held by the cells: each position's digit, 0 where
    /// the clue remover blanked it.
    pub open spec fn spec_puzzle(&self) -> Seq<int> {
        self.spec_cells().map_values(|c: Cell| c.spec_val().as_int())
    }

    /// A ready board: 81 cells in row-major order, a correctly solved grid,
    /// and every still-filled cell agreeing with that grid.
    pub open spec fn wf(&self) -> bool {
        &&& self.spec_cells().len() == 81
        &&& forall|t: int|
            0 <= t < 81 ==> {
                let p = (#[trigger] self.spec_cells()[t]).spec_pos();
                p.spec_row() == row_of_pos(t) && p.spec_col() == col_of_pos(t) && p.wf()
            }
        &&& complete_grid(self.spec_solved())
        &&& forall|t: int|
            0 <= t < 81 ==> #[trigger] self.spec_puzzle()[t] == 0 || self.spec_puzzle()[t]
                == self.spec_solved()[t]
    }

    /// The set of values already used by cells sharing `pos`'s row, column
    /// or box, as a mask indexed by digit.
    fn get_neighbors(&self, pos: &Coord) -> (mask: Vec<bool>)
        requires
            pos.wf(),
            forall|u: int|
                0 <= u < self.spec_cells().len() ==> (#[trigger] self.spec_cells()[u]).spec_pos().wf(),
        ensures
            mask@.len() == 10,
            forall|v: int|
                1 <= v <= 9 ==> (#[trigger] mask@[v] <==> exists|u: int|
                    0 <= u < self.spec_cells().len() && coord_peers(
                        (#[trigger] self.spec_cells()[u]).spec_pos(),
                        *pos,
                    ) && self.spec_cells()[u].spec_val().as_int() == v),
    {
        let mut mask: Vec<bool> = vec![false, false, false, false, false, false, false, false, false, false];
        let len = self.cells.len();
        let mut u: usize = 0;
        while u < len
            invariant
                len == self.spec_cells().len(),
                forall|w: int|
                    0 <= w < self.spec_cells().len() ==> (
                    #[trigger] self.spec_cells()[w]).spec_pos().wf(),
                pos.wf(),
                0 <= u <= len,
                mask@.len() == 10,
                forall|v: int|
                    1 <= v <= 9 ==> (#[trigger] mask@[v] <==> exists|w: int|
                        0 <= w < u && coord_peers(
                            (#[trigger] self.spec_cells()[w]).spec_pos(),
                            *pos,
                        ) && self.spec_cells()[w].spec_val().as_int() == v),
                !mask@[0],
            decreases len - u,
        {
            let cell = &self.cells[u];
            let coord = cell.pos();
            if coord.row() == pos.row() || coord.col() == pos.col() || coord.grid() == pos.grid() {
                let v = cell.val().as_usize();
                if v > 0 {
                    mask.set(v, true);
                } else {
                    proof {
                        assert(self.spec_cells()[u as int].spec_val().as_int() == 0);
                    }
                }
            }
            u = u + 1;
        }
        mask
    }
}

/// During generation: the candidate `v` may legally be placed at row-major
/// position `t`, given the cells placed before `t`.
pub open spec fn option_ok_at(s: Seq<Cell>, t: int, v: CellVal) -> bool {
    &&& 1 <= v.as_int() <= 9
    &&& forall|u: int|
        0 <= u < t && same_group(u, t) ==> (#[trigger] s[u]).spec_val().as_int() != v.as_int()
}

/// During generation: the cell at row-major position `t` sits at its
/// canonical coordinate, its value does not clash with any earlier peer,
/// and every leftover candidate recorded with it is still legal there.
pub open spec fn cell_at_ok(s: Seq<Cell>, t: int) -> bool {
    &&& s[t].spec_pos().spec_row() == row_of_pos(t)
    &&& s[t].spec_pos().spec_col() == col_of_pos(t)
    &&& s[t].spec_pos().wf()
    &&& option_ok_at(s, t, s[t].spec_val())
    &&& s[t].spec_remaining().len() <= 8
    &&& forall|q: int|
        0 <= q < s[t].spec_remaining().len() ==> option_ok_at(
            s,
            t,
            #[trigger] s[t].spec_remaining()[q],
        )
}

/// The invariant of the generator's stack of placed cells.
pub open spec fn stack_ok(s: Seq<Cell>) -> bool {
    forall|t: int| 0 <= t < s.len() ==> #[trigger] cell_at_ok(s, t)
}

/// The leftover candidate list carried by a backtracking step: each entry
/// is still a legal value for the next position to fill.
pub open spec fn pending_ok(s: Seq<Cell>, o: Seq<CellVal>) -> bool {
    &&& o.len() <= 8
    &&& forall|q: int| 0 <= q < o.len() ==> option_ok_at(s, s.len() as int, #[trigger] o[q])
}

spec fn pow10(k: nat) -> nat
    decreases k,
{
    if k == 0 {
        1
    } else {
        10 * pow10((k - 1) as nat)
    }
}

proof fn lemma_pow10_pos(k: nat)
    ensures
        pow10(k) >= 1,
    decreases k,
{
    if k > 0 {
        lemma_pow10_pos((k - 1) as nat);
    }
}

/// The search budget left in the stack: each placed cell contributes its
/// leftover candidates, weighted so that an earlier position dominates
/// every candidate that could ever be tried after it.
spec fn stack_measure(s: Seq<Cell>) -> nat
    decreases s.len(),
{
    if s.len() == 0 {
        0
    } else {
        stack_measure(s.drop_last()) + s.last().spec_remaining().len() * pow10(
            (81 - s.len()) as nat,
        )
    }
}

spec fn pending_view(p: Option<Vec<CellVal>>) -> Option<Seq<CellVal>> {
    match p {
        Option::Some(o) => Option::Some(o@),
        Option::None => Option::None,
    }
}

/// The whole search budget: the stack's budget plus what the position now
/// being filled can still try (its carried leftovers, or up to nine fresh
/// candidates).  Every step of the generator either shrinks this budget or
/// keeps it while shortening the stack.
spec fn search_measure(s: Seq<Cell>, pending: Option<Seq<CellVal>>) -> nat {
    stack_measure(s) + (match pending {
        Option::Some(o) => o.len() * pow10((80 - s.len()) as nat),
        Option::None => if s.len() < 81 {
            9 * pow10((80 - s.len()) as nat)
        } else {
            0
        },
    })
}

proof fn lemma_stack_measure_push(s: Seq<Cell>, c: Cell)
    requires
        s.len() <= 80,
    ensures
        stack_measure(s.push(c)) == stack_measure(s) + c.spec_remaining().len() * pow10(
            (80 - s.len()) as nat,
        ),
{
    let s2 = s.push(c);
    assert(s2.drop_last() =~= s);
    assert(s2.last() == c);
    assert((81 - s2.len()) as nat == (80 - s.len()) as nat);
}

/// The candidate values for a position: every digit 1..=9 that its row,
/// column and box peers have not used, in ascending order.
fn cell_vals_diff(neighbors: &Vec<bool>) -> (r: Vec<CellVal>)
    requires
        neighbors@.len() == 10,
    ensures
        r@.len() <= 9,
        forall|t: int|
            0 <= t < r@.len() ==> 1 <= (#[trigger] r@[t]).as_int() <= 9 && !neighbors@[r@[t].as_int()],
        forall|t1: int, t2: int|
            0 <= t1 < t2 < r@.len() ==> r@[t1].as_int() < r@[t2].as_int(),
        forall|v: int|
            1 <= v <= 9 && !(#[trigger] neighbors@[v]) ==> exists|t: int|
                0 <= t < r@.len() && (#[trigger] r@[t]).as_int() == v,
    {
    let mut ret: Vec<CellVal> = Vec::new();
    let mut v: usize = 1;
    while v <= 9
        invariant
            neighbors@.len() == 10,
            1 <= v <= 10,
            ret@.len() < v,
            forall|t: int|
                0 <= t < ret@.len() ==> 1 <= (#[trigger] ret@[t]).as_int() < v
                    && !neighbors@[ret@[t].as_int()],
            forall|t1: int, t2: int|
                0 <= t1 < t2 < ret@.len() ==> ret@[t1].as_int() < ret@[t2].as_int(),
            forall|w: int|
                1 <= w < v && !(#[trigger] neighbors@[w]) ==> exists|t: int|
                    0 <= t < ret@.len() && (#[trigger] ret@[t]).as_int() == w,
        decreases 10 - v,
    {
        if !neighbors[v] {
            let ghost before = ret@;
            ret.push(CellVal::new(v));
            proof {
                assert forall|w: int|
                    1 <= w <= v && !(neighbors@[w]) implies exists|t: int|
                    0 <= t < ret@.len() && (#[trigger] ret@[t]).as_int() == w by {
                    if w == v {
                        assert(ret@[ret@.len() - 1].as_int() == w);
                    } else {
                        let t0 = choose|t: int| 0 <= t < before.len() && (#[trigger] before[t]).as_int() == w;
                        assert(ret@[t0].as_int() == w);
                    }
                }
            }
        }
        v = v + 1;
    }
    ret
}

impl Board {
    /// Generates a board: fills all 81 cells by randomized backtracking,
    /// records the filled grid as the solution, then blanks `k` cells at
    /// random, leaving `81 - k` clues.
    ///
    /// Generation always succeeds: the backtracking search is proven never
    /// to exhaust its options on a 9x9 grid.
    pub fn new(k: usize) -> (b: Board)
        requires
            k <= 81,
        ensures
            b.wf(),
            count_filled(b.spec_puzzle()) == 81 - k,
    {
        let mut b: Board = Board { cells: Vec::new(), pos_to_val: Vec::new() };

        // fill the whole grid by backtracking, starting at row 1, column 1
        b.fill_cells();
        proof {
            lemma_stack_complete(b.spec_cells());
        }

        // keep the filled grid as the solution
        b.map_coord_to_cells();

        // blank k cells of the filled board
        let ghost filled = b;
        b.remove_k_cells(k);

        proof {
            assert forall|t: int|
                0 <= t < 81 implies {
                let p = (#[trigger] b.spec_cells()[t]).spec_pos();
                p.spec_row() == row_of_pos(t) && p.spec_col() == col_of_pos(t) && p.wf()
            } by {
                assert(b.spec_cells()[t].spec_pos() == filled.spec_cells()[t].spec_pos());
                assert(cell_at_ok(filled.spec_cells(), t));
            };
            assert forall|t: int|
                0 <= t < 81 implies #[trigger] b.spec_puzzle()[t] == 0 || b.spec_puzzle()[t]
                == b.spec_solved()[t] by {
                assert(b.spec_puzzle()[t] == 0 || b.spec_puzzle()[t]
                    == filled.spec_puzzle()[t]);
                assert(filled.spec_puzzle()[t] == filled.spec_solved()[t]);
            };
        }
        b
    }

    /// Whether every cell still matches the solved grid; on a fresh board
    /// this holds only when no cell was blanked.
    #[verifier::loop_isolation(false)]
    pub fn is_solved(&self) -> (r: bool)
        requires
            self.spec_cells().len() == 81,
            self.spec_solved().len() == 81,
        ensures
            r == (forall|t: int|
                0 <= t < 81 ==> #[trigger] self.spec_puzzle()[t] == self.spec_solved()[t]),
    {
        let mut t: usize = 0;
        while t < 81
            invariant
                t <= 81,
                forall|u: int|
                    0 <= u < t ==> #[trigger] self.spec_puzzle()[u] == self.spec_solved()[u],
            decreases 81 - t,
        {
            if self.cells[t].val().as_usize() != self.pos_to_val[t].as_usize() {
                proof {
                    assert(self.spec_puzzle()[t as int] != self.spec_solved()[t as int]);
                }
                return false;
            }
            t = t + 1;
        }
        true
    }

    /// Fills all 81 cells by iterative backtracking.  For the next position
    /// in row-major order it computes the candidates its peers still allow,
    /// places one picked at random and records the leftovers beside it; on
    /// a dead end it pops the most recent cell off the stack and resumes at
    /// that cell's position with the recorded leftovers.  The stack itself
    /// is the backtracking state: no recursion is needed.
    ///
    /// The search always succeeds: a complete grid stays reachable at
    /// every step (see `solution_reachable`), so the stack is never
    /// popped past the first position.
    #[verifier::loop_isolation(false)]
    #[verifier::rlimit(60)]
    fn fill_cells(&mut self)
        requires
            old(self).spec_cells().len() == 0,
        ensures
            final(self).spec_solved() == old(self).spec_solved(),
            final(self).spec_cells().len() == 81,
            stack_ok(final(self).spec_cells()),
    {
        let mut rng = fresh_rng();
        let mut pending: Option<Vec<CellVal>> = None;
        proof {
            lemma_pattern_grid_complete();
            assert(solution_reachable(
                self.spec_cells(),
                pending_view(pending),
                pattern_grid(),
            ));
        }
        while self.cells.len() < 81
            invariant
                self.pos_to_val@ == old(self).pos_to_val@,
                self.spec_cells().len() <= 81,
                stack_ok(self.spec_cells()),
                pending matches Some(o) ==> self.spec_cells().len() < 81 && pending_ok(
                    self.spec_cells(),
                    o@,
                ),
                exists|sol: Seq<int>|
                    #[trigger] complete_grid(sol) && solution_reachable(
                        self.spec_cells(),
                        pending_view(pending),
                        sol,
                    ),
            decreases
                search_measure(self.spec_cells(), pending_view(pending)),
                self.spec_cells().len(),
        {
            let ghost s0 = self.spec_cells();
            let ghost p0 = pending_view(pending);
            let ghost m0 = search_measure(s0, p0);
            let n = self.cells.len();
            let i = n / 9 + 1;
            let j = n % 9 + 1;
            proof {
                assert(i == row_of_pos(n as int));
                assert(j == col_of_pos(n as int));
            }
            let pos = match Coord::new(i, j) {
                Ok(c) => c,
                Err(_) => unreached(),
            };
            let mut options: Vec<CellVal>;
            match pending {
                Some(rem) => {
                    options = rem;
                    proof {
                        assert(p0 == Option::Some(options@));
                    }
                }
                None => {
                    proof {
                        assert forall|u: int|
                            0 <= u < s0.len() implies (#[trigger] s0[u]).spec_pos().wf() by {
                            assert(cell_at_ok(s0, u));
                        };
                    }
                    let mask = self.get_neighbors(&pos);
                    options = cell_vals_diff(&mask);
                    proof {
                        assert forall|q: int|
                            0 <= q < options@.len() implies option_ok_at(
                            s0,
                            n as int,
                            #[trigger] options@[q],
                        ) by {
                            let v = options@[q].as_int();
                            assert(1 <= v <= 9 && !mask@[v]);
                            assert forall|u: int|
                                0 <= u < n && same_group(u, n as int) implies (
                            #[trigger] s0[u]).spec_val().as_int() != v by {
                                assert(cell_at_ok(s0, u));
                                if s0[u].spec_val().as_int() == v {
                                    assert(coord_peers(s0[u].spec_pos(), pos));
                                    assert(mask@[v]);
                                }
                            };
                        };
                        // a solution lying on the whole prefix finds its
                        // next digit among the fresh candidates
                        assert forall|sol: Seq<int>|
                            #[trigger] complete_grid(sol) && agrees_below(
                            sol,
                            s0,
                            n as int,
                        ) implies seq_has_digit(options@, sol[n as int]) by {
                            lemma_solution_digit_free(s0, sol, n as int);
                            let v = sol[n as int];
                            assert(1 <= v <= 9);
                            if mask@[v] {
                                let uu = choose|uu: int|
                                    0 <= uu < s0.len() && coord_peers(
                                        (#[trigger] s0[uu]).spec_pos(),
                                        pos,
                                    ) && s0[uu].spec_val().as_int() == v;
                                assert(cell_at_ok(s0, uu));
                                assert(same_group(uu, n as int));
                                assert(false);
                            }
                            let tq = choose|tq: int|
                                0 <= tq < options@.len() && (#[trigger] options@[tq]).as_int()
                                    == v;
                            assert(seq_has_digit(options@, v));
                        };
                    }
                }
            }
            pending = None;
            let ghost olen = options@.len();
            proof {
                assert(olen <= 9);
                assert(forall|q: int|
                    0 <= q < olen ==> option_ok_at(s0, n as int, #[trigger] options@[q]));
            }
            if options.len() == 0 {
                proof {
                    // some complete grid is still reachable, and with no
                    // candidate left here it must fork at a lower level
                    let sol = choose|sol: Seq<int>|
                        #[trigger] complete_grid(sol) && solution_reachable(s0, p0, sol);
                    assert(!seq_has_digit(options@, sol[n as int]));
                    if p0 is None && agrees_below(sol, s0, n as int) {
                        assert(seq_has_digit(options@, sol[n as int]));
                    }
                    assert(forks_below(s0, sol));
                }
                if n == 0 {
                    // a fork below the first position cannot exist: this
                    // point is unreachable, and the generator never runs
                    // out of options
                    proof {
                        assert(false);
                    }
                    return unreached();
                }
                let last = match self.cells.pop() {
                    Some(c) => c,
                    None => unreached(),
                };
                let ghost glast = last;
                let rem = last.into_remaining();
                proof {
                    let s1 = self.spec_cells();
                    assert(s1 =~= s0.drop_last());
                    assert(glast == s0.last());
                    assert forall|t: int| 0 <= t < s1.len() implies #[trigger] cell_at_ok(
                        s1,
                        t,
                    ) by {
                        assert(cell_at_ok(s0, t));
                        assert(s1[t] == s0[t]);
                        assert(forall|u: int| 0 <= u < t ==> s1[u] == s0[u]);
                    };
                    assert(cell_at_ok(s0, n - 1));
                    assert forall|q: int| 0 <= q < rem@.len() implies option_ok_at(
                        s1,
                        s1.len() as int,
                        #[trigger] rem@[q],
                    ) by {
                        assert(option_ok_at(s0, n - 1, rem@[q]));
                        assert(forall|u: int| 0 <= u < n - 1 ==> s1[u] == s0[u]);
                    };
                    // the budget stays equal (leftovers move from the stack
                    // to the pending list) or shrinks; the stack shortens
                    assert(stack_measure(s0) == stack_measure(s1) + rem@.len() * pow10(
                        (81 - s0.len()) as nat,
                    ));
                    assert((81 - s0.len()) as nat == (80 - s1.len()) as nat);
                    assert(search_measure(s1, Option::Some(rem@)) == stack_measure(s0));
                    if p0 is None {
                        lemma_pow10_pos((80 - s0.len()) as nat);
                        assert(m0 >= stack_measure(s0) + 9);
                    } else {
                        assert(p0->Some_0.len() * pow10((80 - s0.len()) as nat) == 0)
                            by (nonlinear_arith)
                            requires
                                p0->Some_0.len() == 0,
                        ;
                        assert(m0 == stack_measure(s0));
                    }
                }
                pending = Some(rem);
                proof {
                    // the reachable grid forks at a recorded level; after
                    // the pop it is reachable through that level's
                    // leftovers, or through the pending list if the fork
                    // sat exactly at the popped cell
                    let sol = choose|sol: Seq<int>|
                        #[trigger] complete_grid(sol) && solution_reachable(s0, p0, sol);
                    assert(forks_below(s0, sol));
                    let l = choose|l: int|
                        0 <= l < s0.len() && agrees_below(sol, s0, l) && seq_has_digit(
                            (#[trigger] s0[l]).spec_remaining(),
                            sol[l],
                        );
                    let s1 = self.spec_cells();
                    assert(forall|u: int| 0 <= u < n - 1 ==> s1[u] == s0[u]);
                    if l == n - 1 {
                        assert(agrees_below(sol, s1, s1.len() as int));
                        assert(rem@ == s0[l].spec_remaining());
                        assert(seq_has_digit(rem@, sol[s1.len() as int]));
                        assert(solution_reachable(s1, pending_view(pending), sol));
                    } else {
                        assert(s1[l] == s0[l]);
                        assert(agrees_below(sol, s1, l));
                        assert(seq_has_digit((s1[l]).spec_remaining(), sol[l]));
                        assert(forks_below(s1, sol));
                        assert(solution_reachable(s1, pending_view(pending), sol));
                    }
                }
            } else {
                let ghost opts_before = options@;
                shuffle(&mut options, &mut rng);
                proof {
                    broadcast use vstd::seq_lib::group_to_multiset_ensures;

                    assert forall|q: int|
                        0 <= q < options@.len() implies option_ok_at(
                        s0,
                        n as int,
                        #[trigger] options@[q],
                    ) by {
                        let x = options@[q];
                        assert(options@.contains(x));
                        assert(options@.to_multiset().count(x) > 0);
                        assert(opts_before.to_multiset().count(x) > 0);
                        assert(opts_before.contains(x));
                        let q0 = choose|q0: int|
                            0 <= q0 < opts_before.len() && opts_before[q0] == x;
                        assert(option_ok_at(s0, n as int, opts_before[q0]));
                    };
                }
                let ghost shuffled = options@;
                let val = options.remove(0);
                proof {
                    assert(val == shuffled[0]);
                    assert forall|q: int|
                        0 <= q < options@.len() implies option_ok_at(
                        s0,
                        n as int,
                        #[trigger] options@[q],
                    ) by {
                        assert(options@[q] == shuffled[q + 1]);
                    };
                    assert(options@.len() == olen - 1);
                }
                let ghost remv = options@;
                let cellv = Cell::new(val, pos, options);
                let ghost gcell = cellv;
                self.cells.push(cellv);
                proof {
                    let s1 = self.spec_cells();
                    assert(s1 == s0.push(gcell));
                    assert forall|t: int| 0 <= t < s1.len() implies #[trigger] cell_at_ok(
                        s1,
                        t,
                    ) by {
                        if t < n {
                            assert(cell_at_ok(s0, t));
                            assert(s1[t] == s0[t]);
                            assert(forall|u: int| 0 <= u < t ==> s1[u] == s0[u]);
                        } else {
                            assert(s1[t] == gcell);
                            assert(forall|u: int| 0 <= u < n ==> s1[u] == s0[u]);
                            assert(option_ok_at(s0, n as int, gcell.spec_val()));
                            assert(option_ok_at(s1, t, gcell.spec_val()));
                            assert forall|q: int|
                                0 <= q < gcell.spec_remaining().len() implies option_ok_at(
                                s1,
                                t,
                                #[trigger] gcell.spec_remaining()[q],
                            ) by {
                                assert(gcell.spec_remaining()[q] == remv[q]);
                                assert(option_ok_at(s0, n as int, remv[q]));
                            };
                        }
                    };
                    // the budget strictly shrinks: one candidate was
                    // consumed at this position, and every fresh candidate
                    // of the next position weighs less than that
                    lemma_stack_measure_push(s0, gcell);
                    lemma_pow10_pos((80 - s0.len()) as nat);
                    let w = pow10((80 - s0.len()) as nat);
                    let rl = gcell.spec_remaining().len();
                    assert(rl == olen - 1);
                    let s1 = self.spec_cells();
                    let m1 = search_measure(s1, pending_view(pending));
                    assert(stack_measure(s1) == stack_measure(s0) + rl * w);
                    assert(m0 >= stack_measure(s0) + olen * w) by {
                        if p0 is None {
                            assert(m0 == stack_measure(s0) + 9 * w);
                            assert(olen * w <= 9 * w) by (nonlinear_arith)
                                requires
                                    olen <= 9,
                                    w >= 0,
                            ;
                        }
                    };
                    if s1.len() < 81 {
                        let wp = pow10((80 - s1.len()) as nat);
                        lemma_pow10_pos((80 - s1.len()) as nat);
                        assert(w == 10 * wp);
                        assert(m1 == stack_measure(s0) + rl * w + 9 * wp);
                        assert(rl * w + 9 * wp < olen * w) by (nonlinear_arith)
                            requires
                                w == 10 * wp,
                                wp >= 1,
                                rl == olen - 1,
                                olen >= 1,
                        ;
                        assert(m1 < m0);
                    } else {
                        assert(m1 == stack_measure(s0) + rl * w);
                        assert(rl * w < olen * w) by (nonlinear_arith)
                            requires
                                rl == olen - 1,
                                olen >= 1,
                                w >= 1,
                        ;
                        assert(m1 < m0);
                    }
                    // a reachable grid stays reachable: one forking at a
                    // lower level is untouched; one lying on the prefix
                    // either had its digit placed (and still lies on it)
                    // or finds it among the leftovers recorded here
                    let sol = choose|sol: Seq<int>|
                        #[trigger] complete_grid(sol) && solution_reachable(s0, p0, sol);
                    if forks_below(s0, sol) {
                        let l = choose|l: int|
                            0 <= l < s0.len() && agrees_below(sol, s0, l) && seq_has_digit(
                                (#[trigger] s0[l]).spec_remaining(),
                                sol[l],
                            );
                        assert(s1[l] == s0[l]);
                        assert(agrees_below(sol, s1, l));
                        assert(seq_has_digit((s1[l]).spec_remaining(), sol[l]));
                        assert(forks_below(s1, sol));
                        assert(solution_reachable(s1, pending_view(pending), sol));
                    } else {
                        let v = sol[n as int];
                        assert(agrees_below(sol, s0, n as int));
                        assert(seq_has_digit(opts_before, v));
                        lemma_has_digit_multiset(opts_before, shuffled, v);
                        let q = choose|q: int|
                            0 <= q < shuffled.len() && (#[trigger] shuffled[q]).as_int() == v;
                        assert(agrees_below(sol, s1, n as int));
                        if gcell.spec_val().as_int() == v {
                            assert(agrees_below(sol, s1, n + 1));
                            assert(solution_reachable(s1, pending_view(pending), sol));
                        } else {
                            assert(q != 0);
                            assert(remv[q - 1] == shuffled[q]);
                            assert(seq_has_digit(remv, v));
                            assert(s1[n as int].spec_remaining() == remv);
                            assert(forks_below(s1, sol));
                            assert(solution_reachable(s1, pending_view(pending), sol));
                        }
                    }
                }
            }
        }
    }

    /// Records the value now held at every position as the solved grid.
    #[verifier::loop_isolation(false)]
    fn map_coord_to_cells(&mut self)
        requires
            old(self).spec_cells().len() == 81,
            old(self).spec_solved().len() == 0,
        ensures
            final(self).spec_cells() == old(self).spec_cells(),
            final(self).spec_solved() == old(self).spec_puzzle(),
    {
        let mut t: usize = 0;
        while t < 81
            invariant
                self.cells@ == old(self).cells@,
                t <= 81,
                self.pos_to_val@.len() == t,
                forall|u: int|
                    0 <= u < t ==> self.pos_to_val@[u] == (#[trigger] self.cells@[u]).spec_val(),
            decreases 81 - t,
        {
            let v = self.cells[t].val();
            self.pos_to_val.push(v);
            t = t + 1;
        }
        proof {
            assert(self.spec_solved() =~= self.spec_puzzle());
        }
    }

    /// Blanks `k` cells chosen at random without replacement, turning the
    /// solved board into a puzzle with exactly `81 - k` clues.
    #[verifier::loop_isolation(false)]
    fn remove_k_cells(&mut self, k: usize)
        requires
            k <= 81,
            old(self).spec_cells().len() == 81,
            forall|t: int| 0 <= t < 81 ==> (#[trigger] old(self).spec_puzzle()[t]) != 0,
        ensures
            final(self).spec_cells().len() == 81,
            final(self).spec_solved() == old(self).spec_solved(),
            forall|t: int|
                0 <= t < 81 ==> (#[trigger] final(self).spec_cells()[t]).spec_pos() == old(self).spec_cells()[t].spec_pos(),
            forall|t: int|
                0 <= t < 81 ==> (#[trigger] final(self).spec_puzzle()[t]) == 0 || final(self).spec_puzzle()[t] == old(self).spec_puzzle()[t],
            count_filled(final(self).spec_puzzle()) == 81 - k,
    {
        let mut cell_indices: Vec<usize> = Vec::new();
        let mut v: usize = 0;
        while v < 81
            invariant
                cell_indices@.len() == v,
                v <= 81,
                forall|q: int| 0 <= q < v ==> #[trigger] cell_indices@[q] == q,
            decreases 81 - v,
        {
            cell_indices.push(v);
            v = v + 1;
        }
        proof {
            assert(cell_indices@.no_duplicates());
            lemma_count_filled_full(self.spec_puzzle());
        }
        let ghost before = cell_indices@;
        let mut rng = fresh_rng();
        shuffle(&mut cell_indices, &mut rng);
        proof {
            broadcast use vstd::seq_lib::group_to_multiset_ensures;

            before.lemma_multiset_has_no_duplicates();
            assert forall|x: usize| cell_indices@.to_multiset().contains(x) implies cell_indices@.to_multiset().count(x) == 1 by {
                assert(before.to_multiset().count(x) == cell_indices@.to_multiset().count(x));
                assert(before.to_multiset().count(x) > 0);
                assert(before.contains(x));
            };
            cell_indices@.lemma_multiset_has_no_duplicates_conv();
            assert forall|q: int| 0 <= q < 81 implies #[trigger] cell_indices@[q] < 81 by {
                let x = cell_indices@[q];
                assert(cell_indices@.contains(x));
                assert(cell_indices@.to_multiset().count(x) > 0);
                assert(before.to_multiset().count(x) > 0);
                assert(before.contains(x));
                let q0 = choose|q0: int| 0 <= q0 < before.len() && before[q0] == x;
                assert(before[q0] < 81);
            };
        }
        let mut t: usize = 0;
        while t < k
            invariant
                t <= k,
                cell_indices@.len() == 81,
                cell_indices@.no_duplicates(),
                forall|q: int| 0 <= q < 81 ==> #[trigger] cell_indices@[q] < 81,
                self.spec_cells().len() == 81,
                self.pos_to_val@ == old(self).pos_to_val@,
                forall|u: int|
                    0 <= u < 81 ==> (#[trigger] self.spec_cells()[u]).spec_pos() == old(self).spec_cells()[u].spec_pos(),
                forall|u: int|
                    0 <= u < 81 ==> (#[trigger] self.spec_puzzle()[u]) == 0 || self.spec_puzzle()[u]
                        == old(self).spec_puzzle()[u],
                forall|q: int|
                    t <= q < 81 ==> self.spec_puzzle()[#[trigger] cell_indices@[q] as int] == old(self).spec_puzzle()[cell_indices@[q] as int],
                count_filled(self.spec_puzzle()) == 81 - t,
            decreases k - t,
        {
            let ghost puzzle0 = self.spec_puzzle();
            let ghost cells0 = self.spec_cells();
            let idx = cell_indices[t];
            proof {
                assert(puzzle0[idx as int] == old(self).spec_puzzle()[idx as int]);
                assert(puzzle0[idx as int] != 0);
            }
            let mut c = self.cells.remove(idx);
            c.to_empty_cell();
            let ghost gcell = c;
            self.cells.insert(idx, c);
            proof {
                assert(self.spec_cells() =~= cells0.update(idx as int, gcell));
                assert(self.spec_puzzle() =~= puzzle0.update(idx as int, 0));
                lemma_count_filled_update_zero(puzzle0, idx as int);
                assert forall|q: int|
                    t + 1 <= q < 81 implies self.spec_puzzle()[#[trigger] cell_indices@[q] as int]
                    == old(self).spec_puzzle()[cell_indices@[q] as int] by {
                    assert(cell_indices@[q] != cell_indices@[t as int]);
                };
            }
            t = t + 1;
        }
    }
}

proof fn lemma_count_filled_full(g: Seq<int>)
    requires
        forall|t: int| 0 <= t < g.len() ==> (#[trigger] g[t]) != 0,
    ensures
        count_filled(g) == g.len(),
    decreases g.len(),
{
    if g.len() > 0 {
        lemma_count_filled_full(g.drop_last());
    }
}

proof fn lemma_count_filled_update_zero(g: Seq<int>, u: int)
    requires
        0 <= u < g.len(),
        g[u] != 0,
    ensures
        count_filled(g.update(u, 0)) == count_filled(g) - 1,
    decreases g.len(),
{
    let g2 = g.update(u, 0);
    if u == g.len() - 1 {
        assert(g2.drop_last() =~= g.drop_last());
        assert(g2.last() == 0);
    } else {
        assert(g2.drop_last() =~= g.drop_last().update(u, 0));
        lemma_count_filled_update_zero(g.drop_last(), u);
        assert(g2.last() == g.last());
    }
}

/// The interactive solver: the solved grid kept for reference, the active
/// grid the user fills, and the clue positions that may never change.
pub struct Solver {
    solved: Vec<CellVal>,
    active: Vec<CellVal>,
    clues: Vec<bool>,
}

impl Solver {
    /// The solved grid, as digits in row-major order.
    pub closed spec fn spec_solved(&self) -> Seq<int> {
        self.solved@.map_values(|v: CellVal| v.as_int())
    }

    /// The user's grid, as digits in row-major order, 0 where empty.
    pub closed spec fn spec_active(&self) -> Seq<int> {
        self.active@.map_values(|v: CellVal| v.as_int())
    }

    /// Which positions are clues.
    pub closed spec fn spec_clues(&self) -> Seq<bool> {
        self.clues@
    }

    /// The solver's invariant: full 81-position grids, a correctly solved
    /// reference grid, digits in range, and every clue cell still holding
    /// its solved value.
    pub open spec fn wf(&self) -> bool {
        &&& self.spec_solved().len() == 81
        &&& self.spec_active().len() == 81
        &&& self.spec_clues().len() == 81
        &&& complete_grid(self.spec_solved())
        &&& forall|t: int| 0 <= t < 81 ==> 0 <= #[trigger] self.spec_active()[t] <= 9
        &&& forall|t: int|
            0 <= t < 81 && self.spec_clues()[t] ==> #[trigger] self.spec_active()[t]
                == self.spec_solved()[t]
    }

    /// The user's grid equals the solved grid at every position.
    pub open spec fn spec_is_solved(&self) -> bool {
        forall|t: int|
            0 <= t < 81 ==> #[trigger] self.spec_active()[t] == self.spec_solved()[t]
    }

    /// Builds the solver for a generated board: the still-filled cells
    /// become the immutable clues, the puzzle becomes the user's starting
    /// grid, and the solved grid is kept for the completion check.
    #[verifier::loop_isolation(false)]
    pub fn new(board: Board) -> (s: Solver)
        requires
            board.wf(),
        ensures
            s.wf(),
            s.spec_solved() == board.spec_solved(),
            s.spec_active() == board.spec_puzzle(),
            forall|t: int|
                0 <= t < 81 ==> ((#[trigger] s.spec_clues()[t]) <==> board.spec_puzzle()[t] != 0),
    {
        let mut clues: Vec<bool> = Vec::new();
        let mut active: Vec<CellVal> = Vec::new();
        let mut t: usize = 0;
        while t < 81
            invariant
                t <= 81,
                clues@.len() == t,
                active@.len() == t,
                forall|u: int|
                    0 <= u < t ==> (#[trigger] active@[u]) == board.spec_cells()[u].spec_val(),
                forall|u: int|
                    0 <= u < t ==> ((#[trigger] clues@[u]) <==> board.spec_cells()[u].spec_val().as_int()
                        != 0),
            decreases 81 - t,
        {
            let v = board.cells[t].val();
            clues.push(v.as_usize() != 0);
            active.push(v);
            t = t + 1;
        }
        let ghost gboard = board;
        let s = Solver { solved: board.pos_to_val, active, clues };
        proof {
            assert(s.spec_active() =~= gboard.spec_puzzle());
            assert(s.spec_solved() =~= gboard.spec_solved());
            assert forall|u: int|
                0 <= u < 81 && s.spec_clues()[u] implies #[trigger] s.spec_active()[u]
                == s.spec_solved()[u] by {
                assert(gboard.spec_puzzle()[u] != 0);
                assert(gboard.spec_puzzle()[u] == gboard.spec_solved()[u]);
            };
        }
        s
    }

    /// Whether the active grid equals the solved grid at every position:
    /// a full-grid comparison, not an independent constraint check.
    #[verifier::loop_isolation(false)]
    pub fn is_solved(&self) -> (r: bool)
        requires
            self.wf(),
        ensures
            r == self.spec_is_solved(),
    {
        let mut t: usize = 0;
        while t < 81
            invariant
                t <= 81,
                forall|u: int|
                    0 <= u < t ==> #[trigger] self.spec_active()[u] == self.spec_solved()[u],
            decreases 81 - t,
        {
            if self.active[t].as_usize() != self.solved[t].as_usize() {
                proof {
                    assert(self.spec_active()[t as int] != self.spec_solved()[t as int]);
                }
                return false;
            }
            t = t + 1;
        }
        true
    }

    /// Writes `val` into the active grid at (`row`, `col`), with 0
    /// clearing the cell.  A coordinate outside 1..=9 or a value above 9
    /// is rejected as out of bounds; a clue cell is never overwritten.
    pub fn fill_cell(&mut self, row: usize, col: usize, val: usize) -> (r: Result<(), Error>)
        requires
            old(self).wf(),
        ensures
            final(self).wf(),
            final(self).spec_solved() == old(self).spec_solved(),
            final(self).spec_clues() == old(self).spec_clues(),
            !(1 <= row <= 9 && 1 <= col <= 9 && val <= 9) ==> r is Err && (r->Err_0).spec_kind()
                == ErrorKind::OutOfBounds && final(self).spec_active() == old(self).spec_active(),
            (1 <= row <= 9 && 1 <= col <= 9 && val <= 9 && old(self).spec_clues()[pos_index(
                row as int,
                col as int,
            )]) ==> r is Err && (r->Err_0).spec_kind() == ErrorKind::ClueOverwrite
                && final(self).spec_active() == old(self).spec_active(),
            (1 <= row <= 9 && 1 <= col <= 9 && val <= 9 && !old(self).spec_clues()[pos_index(
                row as int,
                col as int,
            )]) ==> r is Ok && final(self).spec_active() == old(self).spec_active().update(
                pos_index(row as int, col as int),
                val as int,
            ),
    {
        match Coord::new(row, col) {
            Ok(_) => {}
            Err(e) => {
                return Err(e);
            }
        }
        if val > 9 {
            return Err(Error::bounds_error());
        }
        let idx = (row - 1) * 9 + (col - 1);
        if self.clues[idx] {
            return Err(Error::overwrite_error());
        }
        let cv = CellVal::new(val);
        self.active.set(idx, cv);
        proof {
            assert(self.spec_active() =~= old(self).spec_active().update(
                pos_index(row as int, col as int),
                val as int,
            ));
        }
        Ok(())
    }

    /// The digit now in the active grid at (`row`, `col`), 0 if empty.
    pub fn value_at(&self, row: usize, col: usize) -> (v: usize)
        requires
            self.wf(),
            1 <= row <= 9,
            1 <= col <= 9,
        ensures
            v == self.spec_active()[pos_index(row as int, col as int)],
    {
        self.active[(row - 1) * 9 + (col - 1)].as_usize()
    }

    /// The digit of the solved grid at (`row`, `col`).
    pub fn solved_value_at(&self, row: usize, col: usize) -> (v: usize)
        requires
            self.wf(),
            1 <= row <= 9,
            1 <= col <= 9,
        ensures
            v == self.spec_solved()[pos_index(row as int, col as int)],
    {
        self.solved[(row - 1) * 9 + (col - 1)].as_usize()
    }

    /// Whether the cell at (`row`, `col`) was given as a clue.
    pub fn is_clue(&self, row: usize, col: usize) -> (b: bool)
        requires
            self.wf(),
            1 <= row <= 9,
            1 <= col <= 9,
        ensures
            b == self.spec_clues()[pos_index(row as int, col as int)],
    {
        self.clues[(row - 1) * 9 + (col - 1)]
    }
}

/// Filling every open cell with its solved value completes the board:
/// when each non-clue position of the active grid holds the solved digit,
/// the whole grid matches, since clue cells hold theirs by invariant.
pub proof fn lemma_solved_detection(s: Solver)
    requires
        s.wf(),
        forall|t: int|
            0 <= t < 81 && !s.spec_clues()[t] ==> #[trigger] s.spec_active()[t]
                == s.spec_solved()[t],
    ensures
        s.spec_is_solved(),
{
}

/// One wrong cell is enough: while any position differs from the solved
/// grid, the board does not count as solved.
pub proof fn lemma_one_wrong_cell(s: Solver, t: int)
    requires
        0 <= t < 81,
        s.spec_active()[t] != s.spec_solved()[t],
    ensures
        !s.spec_is_solved(),
{
}

/// The digit of a reference grid at 0-based row `r` and column `c`: each
/// row shifts 1..9 cyclically by three against the row above, with one
/// extra shift between bands — a classical complete Sudoku pattern.
spec fn pattern_digit(r: int, c: int) -> int {
    (3 * (r % 3) + r / 3 + c) % 9 + 1
}

/// The reference grid itself, in row-major order.
spec fn pattern_grid() -> Seq<int> {
    Seq::new(81, |t: int| pattern_digit(t / 9, t % 9))
}

/// Nonnegative integers with equal remainder modulo nine and less than
/// nine apart are equal.
proof fn lemma_mod9_equal_small(x: int, y: int)
    requires
        0 <= x,
        0 <= y,
        x % 9 == y % 9,
        -9 < x - y < 9,
    ensures
        x == y,
{
    vstd::arithmetic::div_mod::lemma_fundamental_div_mod(x, 9);
    vstd::arithmetic::div_mod::lemma_fundamental_div_mod(y, 9);
    assert(x - y == 9 * (x / 9) - 9 * (y / 9));
}

/// The base-3 decomposition of a number below nine.
proof fn lemma_digits3(x: int)
    requires
        0 <= x < 9,
    ensures
        x == 3 * (x / 3) + x % 3,
        0 <= x % 3 < 3,
        0 <= x / 3 < 3,
{
    vstd::arithmetic::div_mod::lemma_fundamental_div_mod(x, 3);
    vstd::arithmetic::div_mod::lemma_mod_bound(x, 3);
}

/// The decomposition of a position into its 0-based row and column.
proof fn lemma_pos_digits(t: int)
    requires
        0 <= t < 81,
    ensures
        t == 9 * (t / 9) + t % 9,
        0 <= t % 9 < 9,
        0 <= t / 9 < 9,
{
    vstd::arithmetic::div_mod::lemma_fundamental_div_mod(t, 9);
    vstd::arithmetic::div_mod::lemma_mod_bound(t, 9);
}

/// Two distinct positions sharing a row, column or box hold distinct
/// pattern digits.
proof fn lemma_pattern_distinct(t: int, u: int)
    requires
        0 <= t < 81,
        0 <= u < 81,
        t != u,
        same_group(t, u),
    ensures
        pattern_digit(t / 9, t % 9) != pattern_digit(u / 9, u % 9),
{
    let r1 = t / 9;
    let c1 = t % 9;
    let r2 = u / 9;
    let c2 = u % 9;
    lemma_pos_digits(t);
    lemma_pos_digits(u);
    lemma_digits3(r1);
    lemma_digits3(r2);
    lemma_digits3(c1);
    lemma_digits3(c2);
    let x = 3 * (r1 % 3) + r1 / 3 + c1;
    let y = 3 * (r2 % 3) + r2 / 3 + c2;
    if pattern_digit(r1, c1) == pattern_digit(r2, c2) {
        assert(x % 9 == y % 9);
        if row_of_pos(t) == row_of_pos(u) {
            assert(r1 == r2);
            lemma_mod9_equal_small(x, y);
            assert(c1 == c2);
            assert(false);
        } else if col_of_pos(t) == col_of_pos(u) {
            assert(c1 == c2);
            lemma_mod9_equal_small(x, y);
            assert(3 * (r1 % 3) + r1 / 3 == 3 * (r2 % 3) + r2 / 3);
            assert(r1 == r2);
            assert(false);
        } else {
            // the positions share a box: equal band and stack
            assert(3 * (r1 / 3) + c1 / 3 == 3 * (r2 / 3) + c2 / 3);
            assert(r1 / 3 == r2 / 3 && c1 / 3 == c2 / 3);
            lemma_mod9_equal_small(x, y);
            assert(3 * (r1 % 3) + c1 % 3 == 3 * (r2 % 3) + c2 % 3);
            assert(r1 == r2 && c1 == c2);
            assert(false);
        }
    }
}

/// A complete grid exists: the reference pattern is one.
proof fn lemma_pattern_grid_complete()
    ensures
        complete_grid(pattern_grid()),
{
    let g = pattern_grid();
    assert forall|t: int| 0 <= t < 81 implies 1 <= #[trigger] g[t] <= 9 by {
        vstd::arithmetic::div_mod::lemma_mod_bound(3 * ((t / 9) % 3) + (t / 9) / 3 + t % 9, 9);
        assert(g[t] == pattern_digit(t / 9, t % 9));
    };
    assert forall|t: int, u: int|
        0 <= t < 81 && 0 <= u < 81 && t != u && same_group(t, u) implies #[trigger] g[t]
        != #[trigger] g[u] by {
        lemma_pattern_distinct(t, u);
        assert(g[t] == pattern_digit(t / 9, t % 9));
        assert(g[u] == pattern_digit(u / 9, u % 9));
    };
}

/// The candidate list `o` offers the digit `v`.
pub open spec fn seq_has_digit(o: Seq<CellVal>, v: int) -> bool {
    exists|q: int| 0 <= q < o.len() && (#[trigger] o[q]).as_int() == v
}

/// The grid `sol` agrees with the first `l` placed cells of the stack.
pub open spec fn agrees_below(sol: Seq<int>, s: Seq<Cell>, l: int) -> bool {
    forall|t: int| 0 <= t < l ==> sol[t] == (#[trigger] s[t]).spec_val().as_int()
}

/// The search can still reach the grid `sol`: either the whole current
/// prefix lies on `sol` and the search is free to extend it, or `sol`
/// forks off the prefix at some level whose recorded leftovers — or the
/// pending list, at the level now being refilled — still offer `sol`'s
/// digit there.
pub open spec fn forks_below(s: Seq<Cell>, sol: Seq<int>) -> bool {
    exists|l: int|
        0 <= l < s.len() && agrees_below(sol, s, l) && seq_has_digit(
            (#[trigger] s[l]).spec_remaining(),
            sol[l],
        )
}

pub open spec fn solution_reachable(s: Seq<Cell>, p: Option<Seq<CellVal>>, sol: Seq<int>) -> bool {
    ||| (p is None && agrees_below(sol, s, s.len() as int))
    ||| forks_below(s, sol)
    ||| (p matches Some(o) && agrees_below(sol, s, s.len() as int) && seq_has_digit(
        o,
        sol[s.len() as int],
    ))
}

/// On a grid that extends the stack consistently, the digit wanted at the
/// next position is blocked by no placed peer.
proof fn lemma_solution_digit_free(s: Seq<Cell>, sol: Seq<int>, n: int)
    requires
        stack_ok(s),
        complete_grid(sol),
        s.len() == n,
        0 <= n < 81,
        agrees_below(sol, s, n),
    ensures
        forall|u: int|
            0 <= u < n && same_group(u, n) ==> (#[trigger] s[u]).spec_val().as_int() != sol[n],
{
    assert forall|u: int|
        0 <= u < n && same_group(u, n) implies (#[trigger] s[u]).spec_val().as_int()
        != sol[n] by {
        assert(sol[u] == s[u].spec_val().as_int());
        assert(sol[u] != sol[n]);
    };
}

/// Multiset-equal candidate lists offer the same digits.
proof fn lemma_has_digit_multiset(o1: Seq<CellVal>, o2: Seq<CellVal>, v: int)
    requires
        o1.to_multiset() == o2.to_multiset(),
        seq_has_digit(o1, v),
    ensures
        seq_has_digit(o2, v),
{
    broadcast use vstd::seq_lib::group_to_multiset_ensures;

    let q = choose|q: int| 0 <= q < o1.len() && (#[trigger] o1[q]).as_int() == v;
    let x = o1[q];
    assert(o1.contains(x));
    assert(o1.to_multiset().count(x) > 0);
    assert(o2.to_multiset().count(x) > 0);
    assert(o2.contains(x));
    let q2 = choose|q2: int| 0 <= q2 < o2.len() && o2[q2] == x;
    assert(o2[q2].as_int() == v);
}

/// The coordinate `(r, c)` and its row-major position determine each other.
proof fn lemma_pos_decomposition(r: int, c: int)
    requires
        1 <= r <= 9,
        1 <= c <= 9,
    ensures
        0 <= pos_index(r, c) < 81,
        row_of_pos(pos_index(r, c)) == r,
        col_of_pos(pos_index(r, c)) == c,
{
    let t = pos_index(r, c);
    vstd::arithmetic::div_mod::lemma_fundamental_div_mod_converse_div(t, 9, r - 1, c - 1);
    vstd::arithmetic::div_mod::lemma_fundamental_div_mod_converse_mod(t, 9, r - 1, c - 1);
}

/// Nine pairwise distinct digits drawn from 1..=9 include every digit.
proof fn lemma_nine_distinct_digits(s: Seq<int>, v: int)
    requires
        s.len() == 9,
        forall|q: int| 0 <= q < 9 ==> 1 <= #[trigger] s[q] <= 9,
        forall|q1: int, q2: int| 0 <= q1 < q2 < 9 ==> s[q1] != s[q2],
        1 <= v <= 9,
    ensures
        exists|q: int| 0 <= q < 9 && s[q] == v,
{
    if !(exists|q: int| 0 <= q < 9 && s[q] == v) {
        // then s would map nine positions, injectively, into the eight
        // digits other than v
        let all_digits = vstd::set_lib::set_int_range(1, 10);
        let digits = all_digits.remove(v);
        vstd::set_lib::lemma_int_range(1, 10);
        vstd::set::axiom_set_remove_len(all_digits, v);
        assert(s.no_duplicates());
        s.unique_seq_to_set();
        assert(s.to_set().subset_of(digits)) by {
            assert forall|x: int| s.to_set().contains(x) implies digits.contains(x) by {
                assert(s.contains(x));
                let q = choose|q: int| 0 <= q < s.len() && s[q] == x;
                assert(1 <= x <= 9 && x != v);
            };
        };
        vstd::set_lib::lemma_len_subset(s.to_set(), digits);
        assert(false);
    }
}

/// Every row of a complete grid contains each digit 1..=9; by the grid's
/// pairwise distinctness within a row, it contains each exactly once.
pub proof fn lemma_row_complete(g: Seq<int>, r: int, v: int)
    requires
        complete_grid(g),
        1 <= r <= 9,
        1 <= v <= 9,
    ensures
        exists|c: int| 1 <= c <= 9 && g[pos_index(r, c)] == v,
{
    let s = Seq::new(9, |q: int| g[pos_index(r, q + 1)]);
    assert forall|q: int| 0 <= q < 9 implies 1 <= #[trigger] s[q] <= 9 by {
        lemma_pos_decomposition(r, q + 1);
        assert(s[q] == g[pos_index(r, q + 1)]);
    };
    assert forall|q1: int, q2: int| 0 <= q1 < q2 < 9 implies s[q1] != s[q2] by {
        lemma_pos_decomposition(r, q1 + 1);
        lemma_pos_decomposition(r, q2 + 1);
        let t1 = pos_index(r, q1 + 1);
        let t2 = pos_index(r, q2 + 1);
        assert(same_group(t1, t2));
        assert(g[t1] != g[t2]);
    };
    lemma_nine_distinct_digits(s, v);
    let q = choose|q: int| 0 <= q < 9 && s[q] == v;
    assert(g[pos_index(r, q + 1)] == v);
}

/// Every column of a complete grid contains each digit 1..=9; by the
/// grid's pairwise distinctness within a column, exactly once.
pub proof fn lemma_col_complete(g: Seq<int>, c: int, v: int)
    requires
        complete_grid(g),
        1 <= c <= 9,
        1 <= v <= 9,
    ensures
        exists|r: int| 1 <= r <= 9 && g[pos_index(r, c)] == v,
{
    let s = Seq::new(9, |q: int| g[pos_index(q + 1, c)]);
    assert forall|q: int| 0 <= q < 9 implies 1 <= #[trigger] s[q] <= 9 by {
        lemma_pos_decomposition(q + 1, c);
        assert(s[q] == g[pos_index(q + 1, c)]);
    };
    assert forall|q1: int, q2: int| 0 <= q1 < q2 < 9 implies s[q1] != s[q2] by {
        lemma_pos_decomposition(q1 + 1, c);
        lemma_pos_decomposition(q2 + 1, c);
        let t1 = pos_index(q1 + 1, c);
        let t2 = pos_index(q2 + 1, c);
        assert(same_group(t1, t2));
        assert(g[t1] != g[t2]);
    };
    lemma_nine_distinct_digits(s, v);
    let q = choose|q: int| 0 <= q < 9 && s[q] == v;
    assert(g[pos_index(q + 1, c)] == v);
}

/// The coordinate of the `q`-th cell (0..=8, row-major) of box `b` lies in
/// range and in that box.
proof fn lemma_box_cell(b: int, q: int)
    requires
        1 <= b <= 9,
        0 <= q < 9,
    ensures
        ({
            let rr = 3 * ((b - 1) / 3) + q / 3 + 1;
            let cc = 3 * ((b - 1) % 3) + q % 3 + 1;
            1 <= rr <= 9 && 1 <= cc <= 9 && box_of(rr, cc) == b
        }),
{
    vstd::arithmetic::div_mod::lemma_fundamental_div_mod(b - 1, 3);
    vstd::arithmetic::div_mod::lemma_mod_bound(b - 1, 3);
    vstd::arithmetic::div_mod::lemma_fundamental_div_mod(q, 3);
    vstd::arithmetic::div_mod::lemma_mod_bound(q, 3);
    let rr = 3 * ((b - 1) / 3) + q / 3 + 1;
    let cc = 3 * ((b - 1) % 3) + q % 3 + 1;
    vstd::arithmetic::div_mod::lemma_fundamental_div_mod_converse_div(rr - 1, 3, (b - 1) / 3, q / 3);
    vstd::arithmetic::div_mod::lemma_fundamental_div_mod_converse_div(cc - 1, 3, (b - 1) % 3, q % 3);
}

/// Every 3x3 box of a complete grid contains each digit 1..=9; by the
/// grid's pairwise distinctness within a box, exactly once.
pub proof fn lemma_box_complete(g: Seq<int>, b: int, v: int)
    requires
        complete_grid(g),
        1 <= b <= 9,
        1 <= v <= 9,
    ensures
        exists|r: int, c: int|
            1 <= r <= 9 && 1 <= c <= 9 && box_of(r, c) == b && g[pos_index(r, c)] == v,
{
    let br = 3 * ((b - 1) / 3);
    let bc = 3 * ((b - 1) % 3);
    let s = Seq::new(9, |q: int| g[pos_index(br + q / 3 + 1, bc + q % 3 + 1)]);
    assert forall|q: int| 0 <= q < 9 implies 1 <= #[trigger] s[q] <= 9 by {
        lemma_box_cell(b, q);
        lemma_pos_decomposition(br + q / 3 + 1, bc + q % 3 + 1);
        assert(s[q] == g[pos_index(br + q / 3 + 1, bc + q % 3 + 1)]);
    };
    assert forall|q1: int, q2: int| 0 <= q1 < q2 < 9 implies s[q1] != s[q2] by {
        lemma_box_cell(b, q1);
        lemma_box_cell(b, q2);
        lemma_pos_decomposition(br + q1 / 3 + 1, bc + q1 % 3 + 1);
        lemma_pos_decomposition(br + q2 / 3 + 1, bc + q2 % 3 + 1);
        let t1 = pos_index(br + q1 / 3 + 1, bc + q1 % 3 + 1);
        let t2 = pos_index(br + q2 / 3 + 1, bc + q2 % 3 + 1);
        assert(q1 / 3 != q2 / 3 || q1 % 3 != q2 % 3) by {
            vstd::arithmetic::div_mod::lemma_fundamental_div_mod(q1, 3);
            vstd::arithmetic::div_mod::lemma_fundamental_div_mod(q2, 3);
        };
        assert(t1 != t2);
        assert(same_group(t1, t2));
        assert(g[t1] != g[t2]);
    };
    lemma_nine_distinct_digits(s, v);
    let q = choose|q: int| 0 <= q < 9 && s[q] == v;
    lemma_box_cell(b, q);
    assert(g[pos_index(br + q / 3 + 1, bc + q % 3 + 1)] == v);
}

/// A full stack of 81 consistently placed cells is a complete grid.
proof fn lemma_stack_complete(s: Seq<Cell>)
    requires
        s.len() == 81,
        stack_ok(s),
    ensures
        complete_grid(s.map_values(|c: Cell| c.spec_val().as_int())),
{
    let g = s.map_values(|c: Cell| c.spec_val().as_int());
    assert forall|t: int| 0 <= t < 81 implies 1 <= #[trigger] g[t] <= 9 by {
        assert(cell_at_ok(s, t));
    };
    assert forall|t: int, u: int|
        0 <= t < 81 && 0 <= u < 81 && t != u && same_group(t, u) implies #[trigger] g[t]
        != #[trigger] g[u] by {
        if u < t {
            assert(cell_at_ok(s, t));
            assert(option_ok_at(s, t, s[t].spec_val()));
        } else {
            assert(cell_at_ok(s, u));
            assert(option_ok_at(s, u, s[u].spec_val()));
        }
    };
}

} // verus!
