use vstd::prelude::*;

verus! {

/// The widest a `Constrained` column gets.
pub const MAX_CONSTRAINED: usize = 25;

/// How a column's width is decided.
#[derive(Debug, Clone, Copy, PartialEq, Eq, Structural)]
pub enum Constraint {
    /// The measured width, at most `MAX_CONSTRAINED`.
    Constrained,
    /// The measured width.
    Full,
    /// Exactly this width.
    Defined(usize),
}

#[derive(Debug, Clone, Copy, PartialEq, Eq, Structural)]
pub enum SizeCmd {
    Constrain,
    Full,
    Less,
    More,
}

/// The width a column with measured width `measured` gets under `c`.
pub open spec fn effective(measured: usize, c: Constraint) -> usize {
    match c {
        Constraint::Constrained => if measured <= MAX_CONSTRAINED { measured } else { MAX_CONSTRAINED },
        Constraint::Full => measured,
        Constraint::Defined(w) => w,
    }
}

/// The constraint that `cmd` sets on a column whose width is `current`.
pub open spec fn after_cmd(current: usize, cmd: SizeCmd) -> Constraint {
    match cmd {
        SizeCmd::Constrain => Constraint::Constrained,
        SizeCmd::Full => Constraint::Full,
        SizeCmd::Less => Constraint::Defined(if current == 0 { 0 } else { (current - 1) as usize }),
        SizeCmd::More => Constraint::Defined(if current == usize::MAX { usize::MAX } else { (current + 1) as usize }),
    }
}

/// Per source column: the widest content measured, and its constraint.
pub struct ColSize {
    size: Vec<(usize, Constraint)>,
}

impl ColSize {
    pub closed spec fn view(&self) -> Seq<(usize, Constraint)> {
        self.size@
    }

    pub fn new() -> (r: ColSize)
        ensures
            r@.len() == 0,
    {
        ColSize { size: Vec::new() }
    }

    pub fn len(&self) -> (r: usize)
        ensures
            r == self@.len(),
    {
        self.size.len()
    }

    /// Makes room for `nb_cols` columns; new ones are unmeasured and
    /// constrained.
    pub fn set_nb_cols(&mut self, nb_cols: usize)
        ensures
            nb_cols <= old(self)@.len() ==> final(self)@ == old(self)@,
            nb_cols > old(self)@.len() ==> final(self)@ == old(self)@ + Seq::new(
                (nb_cols - old(self)@.len()) as nat,
                |i: int| (0usize, Constraint::Constrained),
            ),
    {
        if nb_cols > self.size.len() {
            let ghost start = self.size@;
            while self.size.len() < nb_cols
                invariant
                    start.len() <= self.size@.len() <= nb_cols,
                    self.size@ == start + Seq::new(
                        (self.size@.len() - start.len()) as nat,
                        |i: int| (0usize, Constraint::Constrained),
                    ),
                decreases nb_cols - self.size@.len(),
            {
                self.size.push((0, Constraint::Constrained));
                assert(self.size@ =~= start + Seq::new(
                    (self.size@.len() - start.len()) as nat,
                    |i: int| (0usize, Constraint::Constrained),
                ));
            }
        }
    }

    /// Raises the measured width of column `idx` to at least `len`.
    pub fn register_size(&mut self, idx: usize, len: usize)
        requires
            idx < old(self)@.len(),
        ensures
            final(self)@ == old(self)@.update(
                idx as int,
                (if old(self)@[idx as int].0 >= len { old(self)@[idx as int].0 } else { len }, old(self)@[idx as int].1),
            ),
    {
        let (s, c) = self.size[idx];
        let s = if s >= len { s } else { len };
        self.size.set(idx, (s, c));
    }

    /// The width column `idx` gets.
    pub fn get_size(&self, idx: usize) -> (r: usize)
        requires
            idx < self@.len(),
        ensures
            r == effective(self@[idx as int].0, self@[idx as int].1),
    {
        let (s, c) = self.size[idx];
        match c {
            Constraint::Constrained => if s <= MAX_CONSTRAINED { s } else { MAX_CONSTRAINED },
            Constraint::Full => s,
            Constraint::Defined(w) => w,
        }
    }

    /// Forgets every column.
    pub fn reset(&mut self)
        ensures
            final(self)@.len() == 0,
    {
        self.size.clear();
    }

    /// Forgets the measured widths, so that the next pass measures again.
    pub fn fit(&mut self)
        ensures
            final(self)@.len() == old(self)@.len(),
            forall|i: int| 0 <= i < final(self)@.len() ==> #[trigger] final(self)@[i] == (0usize, old(self)@[i].1),
    {
        let mut i: usize = 0;
        while i < self.size.len()
            invariant
                i <= self.size@.len() == old(self)@.len(),
                forall|j: int| 0 <= j < i ==> #[trigger] self.size@[j] == (0usize, old(self)@[j].1),
                forall|j: int| i <= j < self.size@.len() ==> #[trigger] self.size@[j] == old(self)@[j],
            decreases self.size@.len() - i,
        {
            let (_, c) = self.size[i];
            self.size.set(i, (0, c));
            i = i + 1;
        }
    }

    /// Sets the constraint of column `idx`; `Less` and `More` fix the width
    /// one below or above the current one.
    pub fn cmd(&mut self, idx: usize, cmd: SizeCmd)
        requires
            idx < old(self)@.len(),
        ensures
            final(self)@ == old(self)@.update(
                idx as int,
                (old(self)@[idx as int].0, after_cmd(effective(old(self)@[idx as int].0, old(self)@[idx as int].1), cmd)),
            ),
    {
        let current = self.get_size(idx);
        let c = match cmd {
            SizeCmd::Constrain => Constraint::Constrained,
            SizeCmd::Full => Constraint::Full,
            SizeCmd::Less => Constraint::Defined(current.saturating_sub(1)),
            SizeCmd::More => Constraint::Defined(current.saturating_add(1)),
        };
        let (s, _) = self.size[idx];
        self.size.set(idx, (s, c));
    }
}

} // verus!
