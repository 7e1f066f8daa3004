//! The rules of snake: a snake moves on a square grid, grows when it eats
//! and dies when it runs into itself or off the grid.
use vstd::prelude::*;
use crate::random::random_below;

verus! {

/// A position on the grid; `y` grows downwards.
#[derive(Debug, Clone, Copy, PartialEq, Eq, Structural)]
pub struct Point {
    pub x: i32,
    pub y: i32,
}

impl Point {
    /// One step to the left.
    pub fn left(&self) -> (p: Point)
        requires
            self.x > i32::MIN,
        ensures
            p == (Point { x: (self.x - 1) as i32, y: self.y }),
    {
        Point { x: self.x - 1, y: self.y }
    }

    /// One step to the right.
    pub fn right(&self) -> (p: Point)
        requires
            self.x < i32::MAX,
        ensures
            p == (Point { x: (self.x + 1) as i32, y: self.y }),
    {
        Point { x: self.x + 1, y: self.y }
    }

    /// One step up.
    pub fn up(&self) -> (p: Point)
        requires
            self.y > i32::MIN,
        ensures
            p == (Point { x: self.x, y: (self.y - 1) as i32 }),
    {
        Point { x: self.x, y: self.y - 1 }
    }

    /// One step down.
    pub fn down(&self) -> (p: Point)
        requires
            self.y < i32::MAX,
        ensures
            p == (Point { x: self.x, y: (self.y + 1) as i32 }),
    {
        Point { x: self.x, y: self.y + 1 }
    }
}

/// The way the snake is heading.
#[derive(Debug, Clone, Copy, PartialEq, Eq, Structural)]
pub enum Direction {
    Up,
    Down,
    Left,
    Right,
}

/// Where a head at `p` moves when heading `d`.
pub open spec fn step(p: Point, d: Direction) -> Point {
    match d {
        Direction::Left => Point { x: (p.x - 1) as i32, y: p.y },
        Direction::Right => Point { x: (p.x + 1) as i32, y: p.y },
        Direction::Up => Point { x: p.x, y: (p.y - 1) as i32 },
        Direction::Down => Point { x: p.x, y: (p.y + 1) as i32 },
    }
}

/// The step from `p` heading `d` stays within `i32`.
pub open spec fn can_step_in(p: Point, d: Direction) -> bool {
    match d {
        Direction::Left => p.x > i32::MIN,
        Direction::Right => p.x < i32::MAX,
        Direction::Up => p.y > i32::MIN,
        Direction::Down => p.y < i32::MAX,
    }
}

/// Opposite steps undo each other.
pub proof fn lemma_steps_undo(p: Point)
    ensures
        can_step_in(p, Direction::Right) ==> step(step(p, Direction::Right), Direction::Left) == p,
        can_step_in(p, Direction::Left) ==> step(step(p, Direction::Left), Direction::Right) == p,
        can_step_in(p, Direction::Down) ==> step(step(p, Direction::Down), Direction::Up) == p,
        can_step_in(p, Direction::Up) ==> step(step(p, Direction::Up), Direction::Down) == p,
{
}

/// The snake: its segments from head to tail, and its heading.
pub struct Snake {
    pub body_segments: Vec<Point>,
    pub direction: Direction,
}

impl Snake {
    /// A snake of one segment at `start_point`, heading right.
    pub fn new(start_point: Point) -> (s: Snake)
        ensures
            s.body_segments@ == seq![start_point],
            s.direction == Direction::Right,
    {
        Snake { body_segments: vec![start_point], direction: Direction::Right }
    }

    /// Moves the head one step in the current direction, each other segment
    /// to where the one before it was; returns whether the new head lands on
    /// a segment other than the old tail.
    pub fn update(&mut self) -> (dead: bool)
        requires
            old(self).body_segments.len() > 0,
            can_step_in(old(self).body_segments@[0], old(self).direction),
        ensures
            final(self).direction == old(self).direction,
            final(self).body_segments@ == seq![step(old(self).body_segments@[0], old(self).direction)]
                + old(self).body_segments@.drop_last(),
            dead == old(self).body_segments@.drop_last().contains(
                step(old(self).body_segments@[0], old(self).direction),
            ),
    {
        let ghost old_body = self.body_segments@;
        let mut flag = false;
        let new_head = match self.direction {
            Direction::Left => self.body_segments[0].left(),
            Direction::Right => self.body_segments[0].right(),
            Direction::Up => self.body_segments[0].up(),
            _ => self.body_segments[0].down(),
        };
        let n = self.body_segments.len();
        let mut i: usize = n - 1;
        while i >= 1
            invariant
                1 <= n,
                i < n,
                n == old_body.len(),
                self.body_segments@.len() == n,
                self.direction == old(self).direction,
                new_head == step(old_body[0], old(self).direction),
                forall|j: int| 0 <= j <= i ==> self.body_segments@[j] == old_body[j],
                forall|j: int| i < j < n ==> self.body_segments@[j] == old_body[j - 1],
                flag == exists|j: int| i <= j < n - 1 && old_body[j] == new_head,
            decreases i,
        {
            let prev = self.body_segments[i - 1];
            self.body_segments.set(i, prev);
            let ghost before = flag;
            if self.body_segments[i] == new_head {
                flag = true;
            }
            assert(flag == (before || old_body[i - 1] == new_head));
            assert((exists|j: int| i - 1 <= j < n - 1 && old_body[j] == new_head) == (before
                || old_body[i - 1] == new_head)) by {
                if exists|j: int| i - 1 <= j < n - 1 && old_body[j] == new_head {
                    let j = choose|j: int| i - 1 <= j < n - 1 && old_body[j] == new_head;
                    if j != i - 1 {
                        assert(i <= j < n - 1 && old_body[j] == new_head);
                    }
                }
                if before {
                    let j = choose|j: int| i <= j < n - 1 && old_body[j] == new_head;
                    assert(i - 1 <= j < n - 1 && old_body[j] == new_head);
                }
                if old_body[i - 1] == new_head {
                    assert(i - 1 <= i - 1 < n - 1 && old_body[i - 1] == new_head);
                }
            }
            i = i - 1;
        }
        self.body_segments.set(0, new_head);
        assert(self.body_segments@ =~= seq![new_head] + old_body.drop_last());
        proof {
            if flag {
                let j = choose|j: int| 0 <= j < n - 1 && old_body[j] == new_head;
                assert(old_body.drop_last()[j] == new_head);
            }
            if old_body.drop_last().contains(new_head) {
                let j = choose|j: int| 0 <= j < n - 1 && old_body.drop_last()[j] == new_head;
                assert(old_body[j] == new_head);
            }
        }
        flag
    }

    /// Adds a segment on top of the tail, so that the snake is one longer
    /// after its next move.
    pub fn grow(&mut self)
        requires
            old(self).body_segments.len() > 0,
        ensures
            final(self).direction == old(self).direction,
            final(self).body_segments@ == old(self).body_segments@.push(old(self).body_segments@.last()),
    {
        let n = self.body_segments.len();
        let last = self.body_segments[n - 1];
        self.body_segments.push(last);
    }
}

/// A piece of food.
#[derive(Debug, Clone, Copy, PartialEq, Eq, Structural)]
pub struct Food {
    pub point: Point,
}

impl Food {
    /// Food at `(x, y)`.
    pub fn new(x: i32, y: i32) -> (f: Food)
        ensures
            f.point == (Point { x, y }),
    {
        Food { point: Point { x, y } }
    }

    /// Food at a random cell of a `size` by `size` grid.
    pub fn random(size: i32) -> (f: Food)
        requires
            size > 0,
        ensures
            0 <= f.point.x < size,
            0 <= f.point.y < size,
    {
        let x = random_below(size as usize) as i32;
        let y = random_below(size as usize) as i32;
        Food::new(x, y)
    }
}

/// What a player did since the last tick.
#[derive(Debug, Clone, Copy, PartialEq, Eq, Structural)]
pub enum Key {
    /// Close the game (the window was closed or Escape was pressed).
    Quit,
    Left,
    Right,
    Up,
    Down,
    /// Anything else, which is ignored.
    Other,
}

/// The heading and the end flag after the keys `keys[0..n]`.
pub open spec fn after_keys(keys: Seq<Key>, d: Direction, over: bool, n: int) -> (Direction, bool)
    decreases n,
{
    if n <= 0 {
        (d, over)
    } else {
        let prev = after_keys(keys, d, over, n - 1);
        match keys[n - 1] {
            Key::Quit => (prev.0, true),
            Key::Left => (Direction::Left, prev.1),
            Key::Right => (Direction::Right, prev.1),
            Key::Up => (Direction::Up, prev.1),
            Key::Down => (Direction::Down, prev.1),
            Key::Other => prev,
        }
    }
}

/// Whether key `k` turns the snake: one of the four arrows.
pub open spec fn turns(k: Key) -> bool {
    k is Left || k is Right || k is Up || k is Down
}

proof fn lemma_after_keys_prefix(keys: Seq<Key>, d: Direction, over: bool, n: int)
    requires
        0 <= n <= keys.len(),
    ensures
        forall|j: int|
            #![trigger keys[j]]
            0 <= j < n && turns(keys[j]) && (forall|m: int| j < m < n ==> !turns(#[trigger] keys[m]))
                ==> {
                &&& keys[j] == Key::Left ==> after_keys(keys, d, over, n).0 == Direction::Left
                &&& keys[j] == Key::Right ==> after_keys(keys, d, over, n).0 == Direction::Right
                &&& keys[j] == Key::Up ==> after_keys(keys, d, over, n).0 == Direction::Up
                &&& keys[j] == Key::Down ==> after_keys(keys, d, over, n).0 == Direction::Down
            },
        (forall|m: int| 0 <= m < n ==> !turns(#[trigger] keys[m])) ==> after_keys(keys, d, over, n).0
            == d,
        after_keys(keys, d, over, n).1 == (over || exists|m: int|
            0 <= m < n && #[trigger] keys[m] == Key::Quit),
    decreases n,
{
    if n > 0 {
        lemma_after_keys_prefix(keys, d, over, n - 1);
        let last = keys[n - 1];
        if !turns(last) {
            assert forall|j: int|
                #![trigger keys[j]]
                0 <= j < n && turns(keys[j]) && (forall|m: int| j < m < n ==> !turns(#[trigger] keys[m]))
                    implies j < n - 1 && (forall|m: int| j < m < n - 1 ==> !turns(#[trigger] keys[m])) by {
            }
        } else {
            assert forall|j: int|
                #![trigger keys[j]]
                0 <= j < n && turns(keys[j]) && (forall|m: int| j < m < n ==> !turns(#[trigger] keys[m]))
                    implies j == n - 1 by {
                if j < n - 1 {
                    assert(!turns(keys[n - 1]));
                }
            }
            assert(!(forall|m: int| 0 <= m < n ==> !turns(#[trigger] keys[m]))) by {
                assert(turns(keys[n - 1]));
            }
        }
        if (exists|m: int| 0 <= m < n && #[trigger] keys[m] == Key::Quit) {
            let m = choose|m: int| 0 <= m < n && #[trigger] keys[m] == Key::Quit;
            if m < n - 1 {
                assert(exists|m: int| 0 <= m < n - 1 && #[trigger] keys[m] == Key::Quit);
            }
        }
    }
}

/// The keys of a tick set the heading to the direction of the last arrow
/// among them (Left, Right, Up or Down), and leave it as it was when there
/// is none; the game is over afterwards exactly when it was before or one
/// of the keys is Quit.
pub proof fn lemma_keys_turn(keys: Seq<Key>, d: Direction, over: bool)
    ensures
        forall|j: int|
            #![trigger keys[j]]
            0 <= j < keys.len() && turns(keys[j]) && (forall|m: int|
                j < m < keys.len() ==> !turns(#[trigger] keys[m])) ==> {
                &&& keys[j] == Key::Left ==> after_keys(keys, d, over, keys.len() as int).0
                    == Direction::Left
                &&& keys[j] == Key::Right ==> after_keys(keys, d, over, keys.len() as int).0
                    == Direction::Right
                &&& keys[j] == Key::Up ==> after_keys(keys, d, over, keys.len() as int).0
                    == Direction::Up
                &&& keys[j] == Key::Down ==> after_keys(keys, d, over, keys.len() as int).0
                    == Direction::Down
            },
        (forall|m: int| 0 <= m < keys.len() ==> !turns(#[trigger] keys[m])) ==> after_keys(
            keys,
            d,
            over,
            keys.len() as int,
        ).0 == d,
        after_keys(keys, d, over, keys.len() as int).1 == (over || keys.contains(Key::Quit)),
{
    lemma_after_keys_prefix(keys, d, over, keys.len() as int);
}

/// Half of `n`, rounded toward zero as Rust's `/` does.
pub open spec fn half(n: i32) -> i32 {
    if n >= 0 {
        (n / 2) as i32
    } else {
        (-((-n) / 2)) as i32
    }
}

/// Whether `p` lies on a `size` by `size` grid.
pub open spec fn on_grid(p: Point, size: i32) -> bool {
    0 <= p.x < size && 0 <= p.y < size
}

/// Whether some cell of the `size` by `size` grid lies off `body`.
pub open spec fn has_free_cell(body: Seq<Point>, size: i32) -> bool {
    exists|p: Point| on_grid(p, size) && !#[trigger] body.contains(p)
}

/// The body after one move heading `d`: the new head, then every segment
/// but the tail.
pub open spec fn moved_body(body: Seq<Point>, d: Direction) -> Seq<Point> {
    seq![step(body[0], d)] + body.drop_last()
}

/// The heading after the keys of one tick.
pub open spec fn heading_after(b: Board, keys: Seq<Key>) -> Direction {
    after_keys(keys, b.snake.direction, b.over, keys.len() as int).0
}

/// Whether `q` comes before `p` when the grid is read column by column,
/// each column from the top.
pub open spec fn scans_before(q: Point, p: Point) -> bool {
    q.x < p.x || (q.x == p.x && q.y < p.y)
}

/// `p` is the first cell of the grid, in that reading order, that lies off
/// `body`.
pub open spec fn is_first_free(body: Seq<Point>, size: i32, p: Point) -> bool {
    &&& on_grid(p, size)
    &&& !body.contains(p)
    &&& forall|q: Point| on_grid(q, size) && scans_before(q, p) ==> #[trigger] body.contains(q)
}

/// The first cell of the grid, column by column and each column from the
/// top, that lies off `body`.
pub open spec fn first_free(body: Seq<Point>, size: i32) -> Point {
    choose|p: Point| is_first_free(body, size, p)
}

/// At most one cell is the first free one, and when there is one,
/// `first_free` names it.
pub proof fn lemma_first_free(body: Seq<Point>, size: i32, p: Point)
    requires
        is_first_free(body, size, p),
    ensures
        first_free(body, size) == p,
{
    let q = first_free(body, size);
    assert(is_first_free(body, size, q));
    if q != p {
        if scans_before(q, p) {
            assert(body.contains(q));
        } else {
            assert(scans_before(p, q));
            assert(body.contains(p));
        }
    }
}

/// Whether `p` is one of the points of `body`.
fn contains_point(body: &Vec<Point>, p: Point) -> (r: bool)
    ensures
        r == body@.contains(p),
{
    let n = body.len();
    let mut i: usize = 0;
    while i < n
        invariant
            i <= n,
            n == body@.len(),
            forall|j: int| 0 <= j < i ==> body@[j] != p,
        decreases n - i,
    {
        if body[i] == p {
            assert(body@[i as int] == p);
            return true;
        }
        i = i + 1;
    }
    false
}

/// The first cell of the `size` by `size` grid, column by column and each
/// column from the top, that lies off `body`.
fn find_free(body: &Vec<Point>, size: i32) -> (r: Option<Point>)
    ensures
        r is Some <==> has_free_cell(body@, size),
        r matches Some(p) ==> is_first_free(body@, size, p),
{
    if size <= 0 {
        return None;
    }
    let mut x: i32 = 0;
    while x < size
        invariant
            0 <= x <= size,
            forall|p: Point| on_grid(p, size) && p.x < x ==> #[trigger] body@.contains(p),
        decreases size - x,
    {
        let mut y: i32 = 0;
        while y < size
            invariant
                0 <= x < size,
                0 <= y <= size,
                forall|p: Point|
                    on_grid(p, size) && (p.x < x || (p.x == x && p.y < y)) ==> #[trigger] body@.contains(p),
            decreases size - y,
        {
            let p = Point { x, y };
            if !contains_point(body, p) {
                return Some(p);
            }
            y = y + 1;
        }
        x = x + 1;
    }
    None
}

/// Whether a tick can run on the given keys, or why it cannot.
#[derive(Debug, Clone, Copy, PartialEq, Eq, Structural)]
pub enum TickCheck {
    /// The tick can run.
    Ready,
    /// The head would step past the range of `i32`.
    Overflow,
    /// The snake eats, and no cell of the grid is left for new food.
    NoRoom,
}

/// The state of a game of snake.
pub struct Board {
    pub food: Food,
    pub snake: Snake,
    pub size: i32,
    pub over: bool,
}

impl Board {
    /// The snake has a head.
    pub open spec fn wf(&self) -> bool {
        self.snake.body_segments.len() > 0
    }

    /// A game on a `size` by `size` grid: a one-segment snake in the middle
    /// heading right, and food on a cell off the snake (see `get_food`). A
    /// grid with sides below 2 has no such cell.
    pub fn new_size(size: i32) -> (b: Board)
        requires
            size >= 2,
        ensures
            b.wf(),
            b.snake.body_segments@ == seq![Point { x: half(size), y: half(size) }],
            b.snake.direction == Direction::Right,
            b.size == size,
            !b.over,
            on_grid(b.food.point, size),
            b.food.point != (Point { x: half(size), y: half(size) }),
    {
        let snake = Snake::new(Point { x: (size / 2) as i32, y: (size / 2) as i32 });
        let mut b = Board { food: Food::new(0, 0), snake, size, over: false };
        proof {
            let p = Point { x: 0, y: 0 };
            let body = b.snake.body_segments@;
            if body.contains(p) {
                let i = choose|i: int| 0 <= i < body.len() && body[i] == p;
                assert(body[i] == body[0]);
            }
            assert(on_grid(p, size) && !body.contains(p));
        }
        b.food = b.get_food();
        proof {
            let body = b.snake.body_segments@;
            assert(body[0] == (Point { x: half(size), y: half(size) }));
            if b.food.point == body[0] {
                assert(body.contains(b.food.point));
            }
        }
        b
    }

    /// Food on a cell of the grid off the snake: the drawn food when its
    /// cell is on the grid and free, otherwise the first free cell (see
    /// `first_free`).
    pub fn food_for_draw(&self, drawn: Food) -> (f: Food)
        requires
            self.size > 0,
            has_free_cell(self.snake.body_segments@, self.size),
        ensures
            on_grid(drawn.point, self.size) && !self.snake.body_segments@.contains(drawn.point) ==> f
                == drawn,
            !(on_grid(drawn.point, self.size) && !self.snake.body_segments@.contains(drawn.point))
                ==> f.point == first_free(self.snake.body_segments@, self.size),
            on_grid(f.point, self.size),
            !self.snake.body_segments@.contains(f.point),
    {
        if drawn.point.x >= 0 && drawn.point.x < self.size && drawn.point.y >= 0 && drawn.point.y
            < self.size && self.accepts_food(&drawn) {
            return drawn;
        }
        let p = find_free(&self.snake.body_segments, self.size).unwrap();
        proof {
            lemma_first_free(self.snake.body_segments@, self.size, p);
        }
        Food::new(p.x, p.y)
    }

    /// Food on a cell of the grid off the snake: a random cell when it is
    /// free, otherwise the first free cell (see `food_for_draw`). Drawing
    /// again until a free cell comes up could go on without end, so one
    /// draw is made.
    pub fn get_food(&self) -> (f: Food)
        requires
            self.size > 0,
            has_free_cell(self.snake.body_segments@, self.size),
        ensures
            on_grid(f.point, self.size),
            !self.snake.body_segments@.contains(f.point),
    {
        self.food_for_draw(Food::random(self.size))
    }

    /// Whether `f` lies off the snake, so that it can be placed.
    pub fn accepts_food(&self, f: &Food) -> (r: bool)
        ensures
            r == !self.snake.body_segments@.contains(f.point),
    {
        !contains_point(&self.snake.body_segments, f.point)
    }

    /// Whether the head is on the grid.
    pub fn in_bounds(&self) -> (r: bool)
        requires
            self.wf(),
        ensures
            r == on_grid(self.snake.body_segments@[0], self.size),
    {
        let pt = &self.snake.body_segments[0];
        pt.x >= 0 && pt.x < self.size && pt.y >= 0 && pt.y < self.size
    }

    /// Whether `tick` can run on `keys`: the step it takes stays within
    /// `i32`, and when the snake eats there is a free cell for new food.
    pub fn check_tick(&self, keys: &Vec<Key>) -> (r: TickCheck)
        requires
            self.wf(),
        ensures
            ({
                let d = heading_after(*self, keys@);
                let body = self.snake.body_segments@;
                let eats = step(body[0], d) == self.food.point;
                let room = self.size > 0 && has_free_cell(moved_body(body, d), self.size);
                &&& (r == TickCheck::Overflow) == !can_step_in(body[0], d)
                &&& (r == TickCheck::NoRoom) == (can_step_in(body[0], d) && eats && !room)
                &&& (r == TickCheck::Ready) == (can_step_in(body[0], d) && (eats ==> room))
            }),
    {
        let mut d = self.snake.direction;
        let mut k: usize = 0;
        while k < keys.len()
            invariant
                k <= keys.len(),
                d == after_keys(keys@, self.snake.direction, self.over, k as int).0,
            decreases keys.len() - k,
        {
            match keys[k] {
                Key::Left => {
                    d = Direction::Left;
                },
                Key::Right => {
                    d = Direction::Right;
                },
                Key::Up => {
                    d = Direction::Up;
                },
                Key::Down => {
                    d = Direction::Down;
                },
                _ => {},
            }
            k = k + 1;
        }
        let head = self.snake.body_segments[0];
        let new_head = match d {
            Direction::Left => {
                if head.x == i32::MIN {
                    return TickCheck::Overflow;
                }
                head.left()
            },
            Direction::Right => {
                if head.x == i32::MAX {
                    return TickCheck::Overflow;
                }
                head.right()
            },
            Direction::Up => {
                if head.y == i32::MIN {
                    return TickCheck::Overflow;
                }
                head.up()
            },
            Direction::Down => {
                if head.y == i32::MAX {
                    return TickCheck::Overflow;
                }
                head.down()
            },
        };
        if new_head != self.food.point {
            return TickCheck::Ready;
        }
        if self.size <= 0 {
            return TickCheck::NoRoom;
        }
        let ghost body = self.snake.body_segments@;
        let n = self.snake.body_segments.len();
        let mut moved: Vec<Point> = Vec::new();
        moved.push(new_head);
        let mut i: usize = 0;
        while i + 1 < n
            invariant
                n == body.len(),
                n >= 1,
                i + 1 <= n,
                body == self.snake.body_segments@,
                moved@ == seq![new_head] + body.subrange(0, i as int),
            decreases n - i,
        {
            moved.push(self.snake.body_segments[i]);
            assert(body.subrange(0, i + 1) =~= body.subrange(0, i as int).push(body[i as int]));
            i = i + 1;
        }
        assert(body.subrange(0, i as int) =~= body.drop_last());
        if find_free(&moved, self.size).is_some() {
            TickCheck::Ready
        } else {
            TickCheck::NoRoom
        }
    }

    /// One tick of the game: the keys turn the snake or end the game, the
    /// snake moves, the game ends when the snake runs into itself or off
    /// the grid, and a snake whose head reaches the food grows and gets new
    /// food (see `get_food`). Returns whether the food was eaten.
    pub fn tick(&mut self, keys: &Vec<Key>) -> (ate: bool)
        requires
            old(self).wf(),
            can_step_in(old(self).snake.body_segments@[0], heading_after(*old(self), keys@)),
            step(old(self).snake.body_segments@[0], heading_after(*old(self), keys@)) == old(self).food.point
                ==> old(self).size > 0 && has_free_cell(
                moved_body(old(self).snake.body_segments@, heading_after(*old(self), keys@)),
                old(self).size,
            ),
        ensures
            final(self).wf(),
            ({
                let (d, quit) = after_keys(keys@, old(self).snake.direction, old(self).over, keys@.len() as int);
                let body = old(self).snake.body_segments@;
                let head = step(body[0], d);
                let moved = moved_body(body, d);
                let dead = body.drop_last().contains(head);
                &&& final(self).snake.direction == d
                &&& final(self).over == (quit || dead || !on_grid(head, old(self).size))
                &&& ate == (head == old(self).food.point)
                &&& final(self).snake.body_segments@ == if ate {
                    moved.push(moved.last())
                } else {
                    moved
                }
                &&& ate ==> on_grid(final(self).food.point, old(self).size)
                    && !final(self).snake.body_segments@.contains(final(self).food.point)
                &&& !ate ==> final(self).food == old(self).food
                &&& final(self).size == old(self).size
            }),
    {
        let ghost d0 = heading_after(*old(self), keys@);
        let mut k: usize = 0;
        while k < keys.len()
            invariant
                k <= keys.len(),
                self.wf(),
                self.snake.body_segments@ == old(self).snake.body_segments@,
                self.food == old(self).food,
                self.size == old(self).size,
                (self.snake.direction, self.over) == after_keys(
                    keys@,
                    old(self).snake.direction,
                    old(self).over,
                    k as int,
                ),
            decreases keys.len() - k,
        {
            match keys[k] {
                Key::Quit => {
                    self.over = true;
                },
                Key::Left => {
                    self.snake.direction = Direction::Left;
                },
                Key::Right => {
                    self.snake.direction = Direction::Right;
                },
                Key::Up => {
                    self.snake.direction = Direction::Up;
                },
                Key::Down => {
                    self.snake.direction = Direction::Down;
                },
                Key::Other => {},
            }
            k = k + 1;
        }
        assert(self.snake.direction == d0);
        let dead = self.snake.update();
        if dead {
            self.over = true
        } else if !self.in_bounds() {
            self.over = true
        }
        if self.snake.body_segments[0] == self.food.point {
            let ghost moved = self.snake.body_segments@;
            self.snake.grow();
            proof {
                let grown = self.snake.body_segments@;
                let p = choose|p: Point| on_grid(p, self.size) && !#[trigger] moved.contains(p);
                if grown.contains(p) {
                    let i = choose|i: int| 0 <= i < grown.len() && grown[i] == p;
                    if i < moved.len() {
                        assert(moved[i] == p);
                    } else {
                        assert(moved[moved.len() - 1] == p);
                    }
                    assert(moved.contains(p));
                }
                assert(on_grid(p, self.size) && !grown.contains(p));
            }
            self.food = self.get_food();
            return true;
        }
        false
    }
}

} // verus!
