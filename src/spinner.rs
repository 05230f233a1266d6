use vstd::prelude::*;

verus! {

/// How long loading lasts before the spinner shows, and how long each
/// frame stays, in milliseconds.
pub const SPINNER_TICK: u64 = 250;

/// The spinner's frames.
pub open spec fn frame_spec(i: int) -> char {
    if i == 0 { '\u{280B}' } else if i == 1 { '\u{2819}' } else if i == 2 { '\u{2839}' } else if i == 3 {
        '\u{2838}'
    } else if i == 4 { '\u{283C}' } else if i == 5 { '\u{2834}' } else if i == 6 { '\u{2826}' } else if i == 7 {
        '\u{2827}'
    } else if i == 8 { '\u{2807}' } else { '\u{280F}' }
}

fn frame(i: u64) -> (r: char)
    requires
        i < 10,
    ensures
        r == frame_spec(i as int),
{
    if i == 0 { '\u{280B}' } else if i == 1 { '\u{2819}' } else if i == 2 { '\u{2839}' } else if i == 3 {
        '\u{2838}'
    } else if i == 4 { '\u{283C}' } else if i == 5 { '\u{2834}' } else if i == 6 { '\u{2826}' } else if i == 7 {
        '\u{2827}'
    } else if i == 8 { '\u{2807}' } else { '\u{280F}' }
}

/// A loading indicator that shows only once loading has lasted a tick.
pub struct Spinner {
    /// When loading started, in milliseconds.
    pub start: Option<u64>,
}

impl Spinner {
    pub fn new() -> (r: Spinner)
        ensures
            r.start is None,
    {
        Spinner { start: None }
    }

    /// The frame to show at time `now` (milliseconds), if any.
    pub fn state(&mut self, is_loading: bool, now: u64) -> (r: Option<char>)
        ensures
            final(self).start == if is_loading {
                match old(self).start {
                    Some(s) => Some(s),
                    None => Some(now),
                }
            } else {
                None::<u64>
            },
            r == match final(self).start {
                Some(s) => if now >= s && now - s > SPINNER_TICK {
                    Some(frame_spec((((now - s - SPINNER_TICK) as int) / (SPINNER_TICK as int)) % 10))
                } else {
                    None
                },
                None => None::<char>,
            },
    {
        if is_loading && self.start.is_none() {
            self.start = Some(now);
        } else if !is_loading && self.start.is_some() {
            self.start = None;
        }
        match self.start {
            Some(s) => if now >= s && now - s > SPINNER_TICK {
                Some(frame(((now - s - SPINNER_TICK) / SPINNER_TICK) % 10))
            } else {
                None
            },
            None => None,
        }
    }
}

/// The number of decimal digits of `nb` (1 for 0).
pub open spec fn print_len(nb: nat) -> nat
    decreases nb,
{
    if nb < 10 { 1 } else { 1 + print_len(nb / 10) }
}

/// The number of decimal digits of `nb` (1 for 0).
pub fn nb_print_len(nb: usize) -> (r: usize)
    ensures
        r == print_len(nb as nat),
{
    let mut n = nb;
    let mut r: usize = 1;
    proof {
        lemma_print_len_bound(nb as nat);
    }
    while n >= 10
        invariant
            1 <= r,
            print_len(nb as nat) == r - 1 + print_len(n as nat),
            nb >= 1 ==> print_len(nb as nat) <= nb,
            n <= nb,
        decreases n,
    {
        proof {
            lemma_print_len_bound(n as nat);
            lemma_print_len_bound((n / 10) as nat);
        }
        n = n / 10;
        r = r + 1;
    }
    r
}

proof fn lemma_print_len_bound(n: nat)
    ensures
        print_len(n) >= 1,
        n >= 1 ==> print_len(n) <= n,
    decreases n,
{
    if n >= 10 {
        lemma_print_len_bound(n / 10);
    }
}

} // verus!
