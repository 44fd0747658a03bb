use vstd::prelude::*;

verus! {

/// The character for a decimal digit.
pub open spec fn digit_char(d: nat) -> char
    recommends
        d < 10,
{
    if d == 0 {
        '0'
    } else if d == 1 {
        '1'
    } else if d == 2 {
        '2'
    } else if d == 3 {
        '3'
    } else if d == 4 {
        '4'
    } else if d == 5 {
        '5'
    } else if d == 6 {
        '6'
    } else if d == 7 {
        '7'
    } else if d == 8 {
        '8'
    } else {
        '9'
    }
}

/// The decimal numeral of `n`, most significant digit first, without
/// leading zeros.
pub open spec fn decimal(n: nat) -> Seq<char>
    decreases n,
{
    if n < 10 {
        seq![digit_char(n)]
    } else {
        decimal(n / 10).push(digit_char(n % 10))
    }
}

fn digit_str(d: u64) -> (s: &'static str)
    requires
        d < 10,
    ensures
        s@ == seq![digit_char(d as nat)],
{
    proof {
        reveal_strlit("0");
        reveal_strlit("1");
        reveal_strlit("2");
        reveal_strlit("3");
        reveal_strlit("4");
        reveal_strlit("5");
        reveal_strlit("6");
        reveal_strlit("7");
        reveal_strlit("8");
        reveal_strlit("9");
    }
    let s = if d == 0 {
        "0"
    } else if d == 1 {
        "1"
    } else if d == 2 {
        "2"
    } else if d == 3 {
        "3"
    } else if d == 4 {
        "4"
    } else if d == 5 {
        "5"
    } else if d == 6 {
        "6"
    } else if d == 7 {
        "7"
    } else if d == 8 {
        "8"
    } else {
        "9"
    };
    assert(s@ =~= seq![digit_char(d as nat)]);
    s
}

/// Writes `n` as a decimal numeral.
pub fn decimal_string(n: u64) -> (s: String)
    ensures
        s@ == decimal(n as nat),
    decreases n,
{
    if n < 10 {
        String::from_str(digit_str(n))
    } else {
        let mut s = decimal_string(n / 10);
        s.append(digit_str(n % 10));
        s
    }
}

/// An amount of RAM (MB), disk space (MB) and threads.
#[derive(Clone, Copy, Debug, PartialEq, Eq, Structural)]
pub struct Resources {
    pub ram: u64,
    pub disk_space: u64,
    pub threads: u32,
}

impl Resources {
    /// Every component of `self` is at least that of `requested`.
    pub open spec fn covers(self, requested: Resources) -> bool {
        &&& self.ram >= requested.ram
        &&& self.disk_space >= requested.disk_space
        &&& self.threads >= requested.threads
    }

    /// Componentwise difference; meaningful where `self.covers(taken)`.
    pub open spec fn minus(self, taken: Resources) -> Resources
        recommends
            self.covers(taken),
    {
        Resources {
            ram: (self.ram - taken.ram) as u64,
            disk_space: (self.disk_space - taken.disk_space) as u64,
            threads: (self.threads - taken.threads) as u32,
        }
    }

    /// The componentwise sum of `self` and `given` is representable.
    pub open spec fn can_absorb(self, given: Resources) -> bool {
        &&& self.ram + given.ram <= u64::MAX
        &&& self.disk_space + given.disk_space <= u64::MAX
        &&& self.threads + given.threads <= u32::MAX
    }

    /// Componentwise sum; meaningful where `self.can_absorb(given)`.
    pub open spec fn plus(self, given: Resources) -> Resources
        recommends
            self.can_absorb(given),
    {
        Resources {
            ram: (self.ram + given.ram) as u64,
            disk_space: (self.disk_space + given.disk_space) as u64,
            threads: (self.threads + given.threads) as u32,
        }
    }

    pub fn new(ram: u64, disk_space: u64, threads: u32) -> (r: Self)
        ensures
            r == (Resources { ram, disk_space, threads }),
    {
        Resources { ram, disk_space, threads }
    }

    /// Whether `requested` can be taken out of `self`.
    pub fn can_allocate(&self, requested: &Resources) -> (ok: bool)
        ensures
            ok == self.covers(*requested),
    {
        self.ram >= requested.ram && self.disk_space >= requested.disk_space && self.threads
            >= requested.threads
    }

    /// Takes `requested` out of `self` if every component suffices, and
    /// leaves `self` untouched otherwise.
    pub fn allocate(&mut self, requested: &Resources) -> (ok: bool)
        ensures
            ok == old(self).covers(*requested),
            ok ==> *final(self) == old(self).minus(*requested),
            !ok ==> *final(self) == *old(self),
    {
        if self.can_allocate(requested) {
            self.ram = self.ram - requested.ram;
            self.disk_space = self.disk_space - requested.disk_space;
            self.threads = self.threads - requested.threads;
            true
        } else {
            false
        }
    }

    /// The text that `to_string` produces.
    pub open spec fn display(self) -> Seq<char> {
        "Resources [RAM: "@ + decimal(self.ram as nat) + " MB, Disk: "@ + decimal(
            self.disk_space as nat,
        ) + " MB, Threads: "@ + decimal(self.threads as nat) + "]"@
    }

    /// Renders the amounts for people to read.
    pub fn to_string(&self) -> (s: String)
        ensures
            s@ == self.display(),
    {
        let mut s = String::from_str("Resources [RAM: ");
        s.append(decimal_string(self.ram).as_str());
        s.append(" MB, Disk: ");
        s.append(decimal_string(self.disk_space).as_str());
        s.append(" MB, Threads: ");
        s.append(decimal_string(self.threads as u64).as_str());
        s.append("]");
        s
    }

    /// Whether `released` can be given back to `self` without leaving
    /// the machine's range.
    pub fn has_room_for(&self, released: &Resources) -> (ok: bool)
        ensures
            ok == self.can_absorb(*released),
    {
        released.ram <= u64::MAX - self.ram && released.disk_space <= u64::MAX - self.disk_space
            && released.threads <= u32::MAX - self.threads
    }

    /// Gives `released` back to `self`.
    pub fn deallocate(&mut self, released: &Resources)
        requires
            old(self).can_absorb(*released),
        ensures
            *final(self) == old(self).plus(*released),
    {
        self.ram = self.ram + released.ram;
        self.disk_space = self.disk_space + released.disk_space;
        self.threads = self.threads + released.threads;
    }
}

/// Taking an amount out of a pool that covers it and giving the same amount
/// back restores the pool exactly.
pub proof fn lemma_allocate_deallocate_round_trip(pool: Resources, amount: Resources)
    requires
        pool.covers(amount),
    ensures
        pool.minus(amount).can_absorb(amount),
        pool.minus(amount).plus(amount) == pool,
{
}

} // verus!
