//! The game world: snake body, direction, reward cell, score and status,
//! advanced one tick at a time.
//!
//! Every mutating operation is specified against a mathematical model
//! ([`WorldModel`]) and a pure transition function on it, so that the laws of
//! the game — terminal states stay put, the body never shrinks, a defined
//! reward never sits on the body — are stated and proved once, over the
//! model, and carried by every operation's contract.

use vstd::prelude::*;

verus! {

use crate::grid::{Direction, next_index, next_index_spec, opposite, lemma_wrap_inverse};
use vstd::pervasive::VecAdditionalExecFns;
use vstd::string::StringExecFns;

/// Where the game stands: `None` before the first start, then one of these.
#[derive(Clone, Copy, PartialEq, Eq, Structural, Debug)]
pub enum GameStatus {
    Won,
    Lost,
    Played,
}

/// One occupied cell of the snake body, as a linear grid index.
#[derive(Clone, Copy, PartialEq, Eq, Structural, Debug)]
pub struct SnakeCell(pub usize);

/// The snake: its body as cell indices, head first, and its current
/// direction of travel.
struct Snake {
    body: Vec<SnakeCell>,
    direction: Direction,
}

/// The mathematical model of a [`World`]: what the contracts speak of.
#[verifier::ext_equal]
pub struct WorldModel {
    /// Grid width; the grid has `width * width` cells.
    pub width: int,
    /// Snake body, head first.
    pub body: Seq<int>,
    /// Current direction of travel.
    pub direction: Direction,
    /// Pending head cell decided at direction-change time, consumed by the
    /// next tick.
    pub next_cell: Option<int>,
    /// The reward cell, absent once the board is full.
    pub reward: Option<int>,
    /// `None` before the first start.
    pub status: Option<GameStatus>,
    /// Score: one point per reward consumed before the board fills.
    pub points: int,
}

impl WorldModel {
    /// Number of cells of the grid.
    pub open spec fn size(self) -> int {
        self.width * self.width
    }

    /// Well-formedness: all cells on the grid, the seeded minimum body
    /// length, a score that the growth rule can account for, and bounds
    /// that keep the executable arithmetic inside `usize`.
    pub open spec fn wf(self) -> bool {
        &&& 1 <= self.width
        &&& self.size() + self.width <= usize::MAX
        &&& 3 <= self.body.len() <= self.size() + 1
        &&& forall|k: int| 0 <= k < self.body.len() ==> 0 <= #[trigger] self.body[k] < self.size()
        &&& match self.next_cell {
            Some(c) => 0 <= c < self.size(),
            None => true,
        }
        &&& match self.reward {
            Some(r) => 0 <= r < self.size(),
            None => true,
        }
        &&& 0 <= self.points <= self.body.len() - 3
        &&& self.body.len() > self.size() ==> self.status == Some(GameStatus::Won)
    }
}

/// The cells of `[0, n)` that `body` does not occupy, in ascending order.
pub open spec fn free_cells(body: Seq<int>, n: int) -> Seq<int>
    decreases n,
{
    if n <= 0 {
        Seq::empty()
    } else if body.contains(n - 1) {
        free_cells(body, n - 1)
    } else {
        free_cells(body, n - 1).push(n - 1)
    }
}

/// The reward cell placed for `body` on a board of `size` cells from the
/// host's random draw: the draw picks one of the free cells, or none is
/// placed when the body covers the whole board.
pub open spec fn reward_for(body: Seq<int>, size: int, draw: int) -> Option<int> {
    let free = free_cells(body, size);
    if free.len() == 0 {
        None
    } else {
        Some(free[draw % free.len() as int])
    }
}

/// Every free cell is on the board and off the body, and no free cell is
/// left exactly when the body covers the board.
pub proof fn lemma_free_cells(body: Seq<int>, n: int)
    requires
        0 <= n,
    ensures
        forall|k: int| 0 <= k < free_cells(body, n).len()
            ==> 0 <= #[trigger] free_cells(body, n)[k] < n && !body.contains(free_cells(body, n)[k]),
        free_cells(body, n).len() == 0 <==> (forall|c: int| 0 <= c < n ==> body.contains(c)),
    decreases n,
{
    if n > 0 {
        lemma_free_cells(body, n - 1);
    }
}

/// The body a new or restarted snake is seeded with: three segments laid
/// backward from the starting index.
pub open spec fn seeded_body(start: int) -> Seq<int> {
    seq![start, start - 1, start - 2]
}

/// The model of a freshly constructed world.
pub open spec fn initial_model(width: int, start: int, draw: int) -> WorldModel {
    WorldModel {
        width: width,
        body: seeded_body(start),
        direction: Direction::Down,
        next_cell: None,
        reward: reward_for(seeded_body(start), width * width, draw),
        status: None,
        points: 0,
    }
}

/// The head cell the coming tick will move to: the pending look-ahead cell
/// if one is stored, else one move from the head in the current direction.
pub open spec fn step_target(m: WorldModel) -> int {
    match m.next_cell {
        Some(c) => c,
        None => next_index_spec(m.body[0], m.width, m.direction),
    }
}

/// One tick. Outside of `Played` nothing moves. Otherwise the head advances
/// to the step target, every other segment takes its predecessor's place,
/// the look-ahead slot empties, a head meeting the shifted rest of the body
/// loses the game, and a head meeting the reward scores and grows the body
/// by a duplicate of its last segment — or wins, with the reward withdrawn,
/// when the body already measures the whole board. Collision and reward are
/// checked in sequence in this order, both unconditionally.
pub open spec fn step_spec(m: WorldModel, draw: int) -> WorldModel {
    if m.status != Some(GameStatus::Played) {
        m
    } else {
        let new_head = step_target(m);
        let shifted = seq![new_head] + m.body.drop_last();
        let collided = m.body.drop_last().contains(new_head);
        let status1 = if collided {
            Some(GameStatus::Lost)
        } else {
            Some(GameStatus::Played)
        };
        if m.reward == Some(new_head) {
            if m.body.len() < m.size() {
                WorldModel {
                    body: shifted.push(shifted.last()),
                    next_cell: None,
                    reward: reward_for(shifted, m.size(), draw),
                    status: status1,
                    points: m.points + 1,
                    ..m
                }
            } else {
                WorldModel {
                    body: shifted.push(shifted.last()),
                    next_cell: None,
                    reward: None,
                    status: Some(GameStatus::Won),
                    points: m.points,
                    ..m
                }
            }
        } else {
            WorldModel { body: shifted, next_cell: None, status: status1, ..m }
        }
    }
}

/// A requested turn: the head cell it would lead to is computed at once;
/// a request that would step straight back onto the neck (`body[1]`) is
/// dropped, any other is recorded together with that cell.
pub open spec fn change_direction_spec(m: WorldModel, d: Direction) -> WorldModel {
    let target = next_index_spec(m.body[0], m.width, d);
    if target == m.body[1] {
        m
    } else {
        WorldModel { direction: d, next_cell: Some(target), ..m }
    }
}

/// A restart: fresh seeded snake, zero score, status forced to `Played`.
/// The reward and any pending look-ahead cell are left as they were.
pub open spec fn restart_spec(m: WorldModel, start: int) -> WorldModel {
    WorldModel {
        body: seeded_body(start),
        direction: Direction::Down,
        points: 0,
        status: Some(GameStatus::Played),
        ..m
    }
}

/// Starting the game moves a world that never started into `Played`;
/// a world already started — playing or finished — is left untouched.
pub open spec fn start_game_spec(m: WorldModel) -> WorldModel {
    if m.status is None {
        WorldModel { status: Some(GameStatus::Played), ..m }
    } else {
        m
    }
}

/// The indices a body vector holds, as the model sees them.
pub open spec fn body_view(body: Seq<SnakeCell>) -> Seq<int> {
    body.map(|k: int, c: SnakeCell| c.0 as int)
}

impl Snake {
    /// A fresh snake of `len` segments laid backward from `span_index`,
    /// facing the default direction.
    fn new(span_index: usize, len: usize) -> (r: Snake)
        requires
            1 <= len,
            len <= span_index + 1,
        ensures
            body_view(r.body@) == Seq::new(len as nat, |k: int| span_index - k),
            r.direction == Direction::Down,
    {
        let mut body: Vec<SnakeCell> = Vec::new();
        let mut i: usize = 0;
        while i < len
            invariant
                i <= len,
                len <= span_index + 1,
                body@.len() == i,
                forall|k: int| 0 <= k < i ==> #[trigger] body@[k].0 == span_index - k,
            decreases len - i,
        {
            body.push(SnakeCell(span_index - i));
            i += 1;
        }
        proof {
            assert(body_view(body@) =~= Seq::new(len as nat, |k: int| span_index - k));
        }
        Snake { body, direction: Direction::Down }
    }
}

/// Whether some segment at or after position `start` sits on `cell`.
fn body_contains_from(body: &Vec<SnakeCell>, start: usize, cell: usize) -> (r: bool)
    requires
        start <= body@.len(),
    ensures
        r == exists|k: int| start <= k < body@.len() && #[trigger] body@[k].0 == cell,
{
    let mut i: usize = start;
    while i < body.len()
        invariant
            start <= i <= body@.len(),
            forall|k: int| start <= k < i ==> #[trigger] body@[k].0 != cell,
        decreases body@.len() - i,
    {
        if body[i].0 == cell {
            return true;
        }
        i += 1;
    }
    false
}

/// The world: the aggregate the driver owns and mutates through the
/// operations below.
pub struct World {
    width: usize,
    snake: Snake,
    size: usize,
    next_cell: Option<SnakeCell>,
    reward_cell: Option<usize>,
    status: Option<GameStatus>,
    points: usize,
}

impl View for World {
    type V = WorldModel;

    closed spec fn view(&self) -> WorldModel {
        WorldModel {
            width: self.width as int,
            body: body_view(self.snake.body@),
            direction: self.snake.direction,
            next_cell: match self.next_cell {
                Some(c) => Some(c.0 as int),
                None => None,
            },
            reward: match self.reward_cell {
                Some(r) => Some(r as int),
                None => None,
            },
            status: self.status,
            points: self.points as int,
        }
    }
}

impl World {
    /// The stored cell count matches the width, and the model is
    /// well-formed. Every operation requires and preserves this.
    pub closed spec fn inv(&self) -> bool {
        &&& self.size == self.width * self.width
        &&& self@.wf()
    }

    /// A well-formed world has a well-formed model.
    pub proof fn lemma_inv_wf(&self)
        requires
            self.inv(),
        ensures
            self@.wf(),
    {
    }

    /// The reward cell placed for `snake_body` from the host's draw: one of
    /// the free cells of the board, or none when the body covers it whole.
    fn gen_reward_cell(max: usize, snake_body: &Vec<SnakeCell>, draw: usize) -> (r: Option<usize>)
        ensures
            (match r {
                Some(c) => Some(c as int),
                None => None,
            }) == reward_for(body_view(snake_body@), max as int, draw as int),
    {
        let mut free: Vec<usize> = Vec::new();
        let mut i: usize = 0;
        while i < max
            invariant
                i <= max,
                free@.map(|k: int, c: usize| c as int)
                    == free_cells(body_view(snake_body@), i as int),
            decreases max - i,
        {
            let occupied = body_contains_from(snake_body, 0, i);
            proof {
                assert(occupied == body_view(snake_body@).contains(i as int)) by {
                    if occupied {
                        let k = choose|k: int| 0 <= k < snake_body@.len()
                            && #[trigger] snake_body@[k].0 == i;
                        assert(body_view(snake_body@)[k] == i as int);
                    } else if body_view(snake_body@).contains(i as int) {
                        let k = choose|k: int| 0 <= k < body_view(snake_body@).len()
                            && #[trigger] body_view(snake_body@)[k] == i as int;
                        assert(snake_body@[k].0 == i);
                    }
                }
            }
            if !occupied {
                free.push(i);
            }
            proof {
                assert(free@.map(|k: int, c: usize| c as int)
                    =~= free_cells(body_view(snake_body@), i + 1));
            }
            i += 1;
        }
        if free.len() == 0 {
            None
        } else {
            let pick = draw % free.len();
            proof {
                assert(free@.map(|k: int, c: usize| c as int)[pick as int]
                    == free@[pick as int] as int);
            }
            Some(free[pick])
        }
    }

    /// A new world on a `width * width` grid, its snake seeded backward
    /// from `start_idx`, not yet started, with the first reward placed from
    /// the host's draw.
    pub fn new(width: usize, start_idx: usize, draw: usize) -> (r: World)
        requires
            2 <= start_idx,
            start_idx < width * width,
            width * width + width <= usize::MAX,
        ensures
            r@ == initial_model(width as int, start_idx as int, draw as int),
            r.inv(),
    {
        proof {
            assert(1 <= width) by (nonlinear_arith)
                requires 2 < width * width;
        }
        let snake = Snake::new(start_idx, 3);
        let size = width * width;
        let reward_cell = World::gen_reward_cell(size, &snake.body, draw);
        let r = World {
            width,
            size,
            reward_cell,
            snake,
            next_cell: None,
            status: None,
            points: 0,
        };
        proof {
            assert(body_view(r.snake.body@) =~= seeded_body(start_idx as int));
            assert(r@ =~= initial_model(width as int, start_idx as int, draw as int));
            lemma_free_cells(seeded_body(start_idx as int), size as int);
            assert(r@.wf()) by {
                assert(3 <= width * width) by (nonlinear_arith)
                    requires 2 < width * width;
                assert(forall|k: int| 0 <= k < r@.body.len()
                    ==> 0 <= #[trigger] r@.body[k] < r@.size());
            }
        }
        r
    }

    /// Grid width.
    pub fn width(&self) -> (r: usize)
        ensures
            r as int == self@.width,
    {
        self.width
    }

    /// Current score.
    pub fn points(&self) -> (r: usize)
        ensures
            r as int == self@.points,
    {
        self.points
    }

    /// The head cell index.
    pub fn snake_head(&self) -> (r: usize)
        requires
            self.inv(),
        ensures
            r as int == self@.body[0],
    {
        self.snake.body[0].0
    }

    /// The current reward cell, absent once the board is full or before a
    /// world was built.
    pub fn reward_cell(&self) -> (r: Option<usize>)
        ensures
            (match r {
                Some(c) => Some(c as int),
                None => None,
            }) == self@.reward,
    {
        self.reward_cell
    }

    /// Number of body segments.
    pub fn snake_length(&self) -> (r: usize)
        ensures
            r == self@.body.len(),
    {
        self.snake.body.len()
    }

    /// Current status, `None` before the first start.
    pub fn game_status(&self) -> (r: Option<GameStatus>)
        ensures
            r == self@.status,
    {
        self.status
    }

    /// Human-readable status text.
    pub fn game_status_text(&self) -> (r: String)
        ensures
            self@.status == Some(GameStatus::Won) ==> r@ == "You have won!"@,
            self@.status == Some(GameStatus::Lost) ==> r@ == "You have lost!"@,
            self@.status == Some(GameStatus::Played) ==> r@ == "Playing"@,
            self@.status is None ==> r@ == "No status"@,
    {
        match self.status {
            Some(GameStatus::Won) => String::from_str("You have won!"),
            Some(GameStatus::Lost) => String::from_str("You have lost!"),
            Some(GameStatus::Played) => String::from_str("Playing"),
            None => String::from_str("No status"),
        }
    }

    /// A read-only snapshot of the body, head first.
    pub fn snake_cell(&self) -> (r: Vec<SnakeCell>)
        ensures
            body_view(r@) == self@.body,
    {
        let mut out: Vec<SnakeCell> = Vec::new();
        let mut i: usize = 0;
        while i < self.snake.body.len()
            invariant
                i <= self.snake.body@.len(),
                out@.len() == i,
                forall|k: int| 0 <= k < i ==> #[trigger] out@[k] == self.snake.body@[k],
            decreases self.snake.body@.len() - i,
        {
            out.push(self.snake.body[i]);
            i += 1;
        }
        proof {
            assert(body_view(out@) =~= self@.body);
        }
        out
    }

    /// Start a game that never started; a world already started, playing
    /// or finished, is deliberately left untouched.
    pub fn start_game(&mut self)
        requires
            old(self).inv(),
        ensures
            final(self).inv(),
            final(self)@ == start_game_spec(old(self)@),
    {
        match self.status {
            None => {
                self.status = Some(GameStatus::Played);
            }
            Some(_) => {}
        }
        proof {
            assert(self@ =~= start_game_spec(old(self)@));
        }
    }

    /// Restart: reseed the snake backward from `start_idx`, zero the score,
    /// and force the status to `Played`, whatever it was. The reward cell
    /// and any pending look-ahead cell are left as they were.
    pub fn restart_game(&mut self, start_idx: usize)
        requires
            old(self).inv(),
            2 <= start_idx,
            (start_idx as int) < old(self)@.size(),
        ensures
            final(self).inv(),
            final(self)@ == restart_spec(old(self)@, start_idx as int),
    {
        self.snake = Snake::new(start_idx, 3);
        self.points = 0;
        self.status = Some(GameStatus::Played);
        proof {
            assert(body_view(self.snake.body@) =~= seeded_body(start_idx as int));
            assert(self@ =~= restart_spec(old(self)@, start_idx as int));
            assert(3 <= self@.size()) by (nonlinear_arith)
                requires 2 < self@.width * self@.width;
        }
    }

    /// The cell one move from the head in `direction`.
    fn generate_next_snake_cell(&self, direction: &Direction) -> (r: SnakeCell)
        requires
            self.inv(),
        ensures
            r.0 as int == next_index_spec(self@.body[0], self@.width, *direction),
            (r.0 as int) < self@.size(),
    {
        let head = self.snake.body[0].0;
        proof {
            assert(self@.body[0] < self@.size());
        }
        SnakeCell(next_index(head, self.width, self.size, *direction))
    }

    /// Request a turn. The head cell the turn would lead to is computed at
    /// once; a request that would step straight back onto the neck
    /// (`body[1]`) is dropped silently, any other becomes the current
    /// direction, with that cell stored for the next tick to consume.
    pub fn change_snake_direction(&mut self, direction: Direction)
        requires
            old(self).inv(),
        ensures
            final(self).inv(),
            final(self)@ == change_direction_spec(old(self)@, direction),
    {
        let next_cell = self.generate_next_snake_cell(&direction);
        if self.snake.body[1].0 == next_cell.0 {
            return;
        }
        self.next_cell = Some(next_cell);
        self.snake.direction = direction;
        proof {
            assert(self@ =~= change_direction_spec(old(self)@, direction));
        }
    }

    /// Advance one tick, placing a fresh reward from the host's draw if the
    /// head consumes the current one. Outside of `Played` nothing moves.
    pub fn step(&mut self, draw: usize)
        requires
            old(self).inv(),
        ensures
            final(self).inv(),
            final(self)@ == step_spec(old(self)@, draw as int),
    {
        let is_played = match self.status {
            Some(GameStatus::Played) => true,
            _ => false,
        };
        if !is_played {
            return;
        }
        let ghost m0 = self@;

        // Snapshot the pre-tick body: the shift below must read it, not the
        // segments already overwritten in this tick.
        let temp = self.snake_cell();

        let new_head = match self.next_cell {
            Some(cell) => cell,
            None => self.generate_next_snake_cell(&self.snake.direction),
        };
        self.next_cell = None;
        self.snake.body.set(0, new_head);
        proof {
            assert forall|k: int| 1 <= k < self.snake.body@.len()
                implies self.snake.body@[k] == temp@[k] by {
                assert(body_view(temp@)[k] == m0.body[k]);
                assert(body_view(old(self).snake.body@)[k] == m0.body[k]);
            };
        }

        let len = self.snake.body.len();
        let mut i: usize = 1;
        while i < len
            invariant
                1 <= i <= len,
                len == self.snake.body@.len(),
                len == temp@.len(),
                self.snake.body@[0] == new_head,
                forall|k: int| 1 <= k < i ==> #[trigger] self.snake.body@[k] == temp@[k - 1],
                forall|k: int| i <= k < len ==> #[trigger] self.snake.body@[k] == temp@[k],
                self.width == old(self).width,
                self.size == old(self).size,
                self.points == old(self).points,
                self.status == old(self).status,
                self.reward_cell == old(self).reward_cell,
                self.next_cell is None,
                self.snake.direction == old(self).snake.direction,
            decreases len - i,
        {
            self.snake.body.set(i, SnakeCell(temp[i - 1].0));
            i += 1;
        }
        proof {
            assert(body_view(self.snake.body@)
                =~= seq![new_head.0 as int] + m0.body.drop_last());
        }

        let collided = body_contains_from(&self.snake.body, 1, new_head.0);
        proof {
            assert(collided == m0.body.drop_last().contains(new_head.0 as int)) by {
                if collided {
                    let k = choose|k: int| 1 <= k < self.snake.body@.len()
                        && #[trigger] self.snake.body@[k].0 == new_head.0;
                    assert(m0.body.drop_last()[k - 1] == new_head.0 as int);
                } else if m0.body.drop_last().contains(new_head.0 as int) {
                    let j = choose|j: int| 0 <= j < m0.body.drop_last().len()
                        && #[trigger] m0.body.drop_last()[j] == new_head.0 as int;
                    assert(self.snake.body@[j + 1].0 == new_head.0);
                }
            }
        }
        if collided {
            self.status = Some(GameStatus::Lost);
        }

        let hit = match self.reward_cell {
            Some(r) => r == new_head.0,
            None => false,
        };
        if hit {
            if self.snake.body.len() < self.size {
                proof {
                    assert(m0.points <= m0.body.len() - 3);
                    assert(m0.body.len() <= m0.size() + 1);
                    assert(m0.size() + m0.width <= usize::MAX);
                }
                self.points = self.points + 1;
                self.reward_cell = World::gen_reward_cell(self.size, &self.snake.body, draw);
            } else {
                self.reward_cell = None;
                self.status = Some(GameStatus::Won);
            }
            let last = self.snake.body[self.snake.body.len() - 1];
            self.snake.body.push(last);
            proof {
                let shifted = seq![new_head.0 as int] + m0.body.drop_last();
                assert(body_view(self.snake.body@) =~= shifted.push(shifted.last()));
                if m0.body.len() < m0.size() {
                    lemma_free_cells(shifted, m0.size());
                }
            }
        }
        proof {
            assert(self@ =~= step_spec(m0, draw as int));
        }
    }
}

/// Terminal stability: once the game is won or lost, a tick changes
/// nothing — not the body, not the reward, not the score, not the status.
pub proof fn lemma_terminal_stable(m: WorldModel, draw: int)
    requires
        m.status == Some(GameStatus::Won) || m.status == Some(GameStatus::Lost),
    ensures
        step_spec(m, draw) == m,
{
}

/// Body length monotonicity: a tick never shrinks the body; it grows it by
/// exactly one precisely when a playing head meets the reward. Each growth
/// before the board is full scores exactly one point; the growth that fills
/// the board scores nothing and wins instead. Without growth the score
/// stands still.
pub proof fn lemma_body_length_monotonic(m: WorldModel, draw: int)
    requires
        m.wf(),
    ensures
        step_spec(m, draw).body.len() >= m.body.len(),
        step_spec(m, draw).body.len() <= m.body.len() + 1,
        step_spec(m, draw).body.len() == m.body.len() + 1
            <==> (m.status == Some(GameStatus::Played) && m.reward == Some(step_target(m))),
        step_spec(m, draw).body.len() == m.body.len() + 1 && m.body.len() < m.size()
            ==> step_spec(m, draw).points == m.points + 1,
        step_spec(m, draw).body.len() == m.body.len() + 1 && m.body.len() >= m.size()
            ==> step_spec(m, draw).points == m.points
                && step_spec(m, draw).status == Some(GameStatus::Won),
        step_spec(m, draw).body.len() == m.body.len() ==> step_spec(m, draw).points == m.points,
{
}

/// A defined reward never sits on the body. Construction establishes this
/// and a tick preserves it (the segment a growth duplicates already lies on
/// the body, and a fresh reward is drawn from the free cells); a restart,
/// which keeps the standing reward while reseeding the body, is the one
/// operation that can break it.
pub open spec fn reward_clear(m: WorldModel) -> bool {
    match m.reward {
        Some(r) => !m.body.contains(r),
        None => true,
    }
}

/// Reward exclusivity at construction: the first reward is drawn from the
/// cells the seeded body leaves free.
pub proof fn lemma_initial_reward_clear(width: int, start: int, draw: int)
    requires
        1 <= width,
    ensures
        reward_clear(initial_model(width, start, draw)),
{
    assert(0 <= width * width) by (nonlinear_arith)
        requires 1 <= width;
    lemma_free_cells(seeded_body(start), width * width);
}

/// Reward exclusivity across a tick: if the reward was off the body before,
/// it is off the body after.
pub proof fn lemma_step_preserves_reward_clear(m: WorldModel, draw: int)
    requires
        m.wf(),
        reward_clear(m),
    ensures
        reward_clear(step_spec(m, draw)),
{
    if m.status == Some(GameStatus::Played) {
        let new_head = step_target(m);
        let shifted = seq![new_head] + m.body.drop_last();
        if m.reward == Some(new_head) {
            if m.body.len() < m.size() {
                lemma_free_cells(shifted, m.size());
                let grown = shifted.push(shifted.last());
                match reward_for(shifted, m.size(), draw) {
                    Some(r) => {
                        assert(!shifted.contains(r));
                        assert forall|k: int| 0 <= k < grown.len()
                            implies #[trigger] grown[k] != r by {
                            if k < shifted.len() {
                                assert(shifted[k] != r);
                            } else {
                                assert(grown[k] == shifted[shifted.len() - 1]);
                            }
                        };
                    }
                    None => {}
                }
            }
        } else {
            match m.reward {
                Some(r) => {
                    let result = step_spec(m, draw);
                    assert forall|k: int| 0 <= k < result.body.len()
                        implies #[trigger] result.body[k] != r by {
                        if k == 0 {
                            assert(result.body[0] == new_head);
                        } else {
                            assert(result.body[k] == m.body[k - 1]);
                            assert(!m.body.contains(r));
                            assert(m.body[k - 1] != r);
                        }
                    };
                }
                None => {}
            }
        }
    }
}

/// No reversal: when the neck (`body[1]`) lies exactly one move opposite
/// the current direction from the head — as it does after every tick that
/// moved in that direction — a request to turn straight around is dropped:
/// neither the direction nor the look-ahead slot changes.
pub proof fn lemma_no_reversal(m: WorldModel)
    requires
        m.wf(),
        m.body[1] == next_index_spec(m.body[0], m.width, opposite(m.direction)),
    ensures
        change_direction_spec(m, opposite(m.direction)) == m,
{
}

/// The stored look-ahead cell, if any, agrees with the current direction:
/// it is the cell one move from the head that way. A fresh world has none,
/// an accepted turn stores cell and direction together, and a tick consumes
/// it; only a restart, which reseeds the body under a kept look-ahead cell,
/// can break the agreement.
pub open spec fn look_ahead_consistent(m: WorldModel) -> bool {
    match m.next_cell {
        Some(c) => c == next_index_spec(m.body[0], m.width, m.direction),
        None => true,
    }
}

/// An accepted or rejected turn leaves the look-ahead cell agreeing with
/// the direction: either both were just set together, or neither moved.
pub proof fn lemma_change_direction_consistent(m: WorldModel, d: Direction)
    requires
        look_ahead_consistent(m),
    ensures
        look_ahead_consistent(change_direction_spec(m, d)),
{
}

/// After a tick of a consistent playing world, the neck of the snake lies
/// exactly one move opposite the direction from the new head, so
/// `lemma_no_reversal` applies to the next turn request — and the tick
/// leaves no look-ahead cell behind, so consistency itself persists.
pub proof fn lemma_step_neck(m: WorldModel, draw: int)
    requires
        m.wf(),
        m.status == Some(GameStatus::Played),
        look_ahead_consistent(m),
    ensures
        look_ahead_consistent(step_spec(m, draw)),
        step_spec(m, draw).body[1] == next_index_spec(
            step_spec(m, draw).body[0],
            step_spec(m, draw).width,
            opposite(step_spec(m, draw).direction),
        ),
{
    let new_head = step_target(m);
    let result = step_spec(m, draw);
    assert(result.body[0] == new_head);
    assert(result.body[1] == m.body[0]);
    lemma_wrap_inverse(m.body[0], m.width, m.direction);
}

} // verus!

