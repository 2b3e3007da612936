//! The command layer: one invocation's arguments are parsed into a command,
//! the command mutates or queries today's entry, and the caller is told what
//! to print and whether the mapping must be persisted before the process
//! exits.
use vstd::prelude::*;
use vstd::string::*;
use crate::num::{all_digits, num_val, str_eq};
use crate::store::{
    date_key, is_date_key, kv_has, kv_lookup, kv_remove, kv_set, wf_kv, CaloriesData, Kv,
};

verus! {

/// The command vocabulary of one invocation.
#[derive(Debug, Clone, Copy, PartialEq, Eq, Structural)]
pub enum Command {
    Add,
    List,
    ListDetails,
    Clear,
    Pop,
    Help,
}

/// What one invocation reports back, free of formatting: the caller turns
/// this into text.
#[derive(Debug, PartialEq, Eq)]
pub enum Output {
    /// The running total for today, printed by Add, List, Clear and Pop.
    Total(u128),
    /// Today's entries verbatim and their total, printed by ListDetails.
    Details(Vec<u32>, u128),
    /// The command reference.
    Help,
    /// The first argument named no command.
    Unknown,
    /// Add was given no number it could use.
    AddUsage,
}

/// The outcome of one handled invocation: what to print, and whether the
/// mapping changed and must be written back.
#[derive(Debug, PartialEq, Eq)]
pub struct Response {
    pub output: Output,
    pub persist: bool,
}

/// The arithmetic sum of an entry list.
pub open spec fn sum_of(vs: Seq<u32>) -> int
    decreases vs.len(),
{
    if vs.len() == 0 {
        0
    } else {
        sum_of(vs.drop_last()) + vs.last()
    }
}

/// Today's entries under `t`, an absent date reading as no entries.
pub open spec fn listed(m: Kv, t: Seq<char>) -> Seq<u32> {
    match kv_lookup(m, t) {
        Some(vs) => vs,
        None => Seq::empty(),
    }
}

/// An entry list with its most recent entry removed; empty stays empty.
pub open spec fn pop1(vs: Seq<u32>) -> Seq<u32> {
    if vs.len() == 0 {
        vs
    } else {
        vs.drop_last()
    }
}

pub proof fn lemma_sum_of_bound(vs: Seq<u32>)
    ensures
        0 <= sum_of(vs) <= vs.len() * 0xffff_ffff,
    decreases vs.len(),
{
    if vs.len() > 0 {
        lemma_sum_of_bound(vs.drop_last());
        assert(sum_of(vs) == sum_of(vs.drop_last()) + vs.last());
        assert((vs.len() - 1) * 0xffff_ffff + 0xffff_ffff == vs.len() * 0xffff_ffff)
            by (nonlinear_arith);
    }
}

/// Sums an entry list exactly; a 128-bit total cannot overflow, whatever the
/// list holds.
pub fn sum_entries(v: &Vec<u32>) -> (r: u128)
    ensures
        r == sum_of(v@),
{
    let n = v.len();
    let mut total: u128 = 0;
    let mut i: usize = 0;
    while i < n
        invariant
            n == v@.len(),
            0 <= i <= n,
            total == sum_of(v@.subrange(0, i as int)),
        decreases n - i,
    {
        proof {
            assert(v@.subrange(0, i as int + 1).drop_last() =~= v@.subrange(0, i as int));
            assert(v@.subrange(0, i as int + 1).last() == v@[i as int]);
            lemma_sum_of_bound(v@.subrange(0, i as int));
            assert((i as int) * 0xffff_ffff + 0xffff_ffff < 0x1_0000_0000_0000_0000_0000_0000)
                by (nonlinear_arith)
                requires
                    0 <= i as int <= 0xffff_ffff_ffff_ffffu64,
            ;
        }
        total = total + v[i] as u128;
        i += 1;
    }
    proof {
        assert(v@.subrange(0, n as int) =~= v@);
    }
    total
}

/// The number Add accepts: an optional leading plus sign, then digits whose
/// value a `u32` can hold.
pub open spec fn spec_parse_u32(s: Seq<char>) -> Option<u32> {
    let ds = if s.len() > 0 && s[0] == '+' {
        s.drop_first()
    } else {
        s
    };
    if ds.len() >= 1 && all_digits(ds) && num_val(ds) <= u32::MAX {
        Some(num_val(ds) as u32)
    } else {
        None
    }
}

pub fn parse_u32(s: &str) -> (r: Option<u32>)
    ensures
        r == spec_parse_u32(s@),
{
    let n = s.unicode_len();
    let start: usize = if n > 0 && s.get_char(0) == '+' {
        1
    } else {
        0
    };
    let ghost ds = if s@.len() > 0 && s@[0] == '+' {
        s@.drop_first()
    } else {
        s@
    };
    proof {
        assert(ds =~= s@.subrange(start as int, n as int));
    }
    if start == n {
        return None;
    }
    let mut j = start;
    let mut acc: u64 = 0;
    let mut too_big = false;
    while j < n
        invariant
            n == s@.len(),
            start <= j <= n,
            ds == s@.subrange(start as int, n as int),
            ds == (if s@.len() > 0 && s@[0] == '+' {
                s@.drop_first()
            } else {
                s@
            }),
            forall|t: int| start <= t < j ==> crate::num::is_digit(#[trigger] s@[t]),
            !too_big ==> acc == num_val(s@.subrange(start as int, j as int)) && acc <= u32::MAX,
            too_big ==> num_val(s@.subrange(start as int, j as int)) > u32::MAX,
        decreases n - j,
    {
        let c = s.get_char(j);
        if !crate::num::is_digit_exec(c) {
            proof {
                assert(ds[j - start] == s@[j as int]);
                assert(!all_digits(ds));
            }
            return None;
        }
        let d = crate::num::digit_val_exec(c);
        proof {
            assert(s@.subrange(start as int, j as int + 1).drop_last() =~= s@.subrange(
                start as int,
                j as int,
            ));
            assert(s@.subrange(start as int, j as int + 1).last() == s@[j as int]);
        }
        if !too_big {
            acc = acc * 10 + d as u64;
            if acc > 0xffff_ffffu64 {
                too_big = true;
            }
        } else {
            proof {
                let pre = num_val(s@.subrange(start as int, j as int));
                assert(num_val(s@.subrange(start as int, j as int + 1)) == pre * 10
                    + crate::num::digit_val(s@[j as int]));
            }
        }
        j += 1;
    }
    proof {
        assert(ds =~= s@.subrange(start as int, n as int));
        assert(all_digits(ds));
    }
    if too_big {
        return None;
    }
    Some(acc as u32)
}

/// Which command the first argument names.
pub open spec fn spec_cmd(args: Seq<String>) -> Option<Command> {
    if args.len() == 0 {
        None
    } else {
        let a = args[0]@;
        if a == "add"@ || a == "-a"@ {
            Some(Command::Add)
        } else if a == "ls"@ || a == "list"@ || a == "-l"@ {
            Some(Command::List)
        } else if a == "listdetails"@ || a == "-ld"@ {
            Some(Command::ListDetails)
        } else if a == "clear"@ || a == "-c"@ {
            Some(Command::Clear)
        } else if a == "pop"@ || a == "-p"@ {
            Some(Command::Pop)
        } else if a == "help"@ || a == "-h"@ {
            Some(Command::Help)
        } else {
            None
        }
    }
}

/// The numeric argument, read only for Add.
pub open spec fn spec_val(args: Seq<String>) -> Option<u32> {
    if spec_cmd(args) == Some(Command::Add) && args.len() >= 2 {
        spec_parse_u32(args[1]@)
    } else {
        None
    }
}

/// What one handled invocation did to the mapping and reported back, given
/// the mapping `m` before the call, today's date key `t`, and the arguments.
pub open spec fn dispatch_post(m: Kv, t: Seq<char>, args: Seq<String>, m2: Kv, r: Response) -> bool {
    match spec_cmd(args) {
        Some(Command::Add) => match spec_val(args) {
            Some(v) => {
                &&& m2 == kv_set(m, t, listed(m, t).push(v))
                &&& r.persist
                &&& r.output matches Output::Total(s) && s == sum_of(listed(m, t).push(v))
            },
            None => m2 == m && !r.persist && r.output == Output::AddUsage,
        },
        Some(Command::List) => {
            &&& m2 == m
            &&& !r.persist
            &&& r.output matches Output::Total(s) && s == sum_of(listed(m, t))
        },
        Some(Command::ListDetails) => {
            &&& m2 == m
            &&& !r.persist
            &&& r.output matches Output::Details(vs, s) && vs@ == listed(m, t) && s == sum_of(
                listed(m, t),
            )
        },
        Some(Command::Clear) => {
            &&& m2 == kv_remove(m, t)
            &&& r.persist
            &&& r.output matches Output::Total(s) && s == 0
        },
        Some(Command::Pop) => {
            &&& if kv_has(m, t) {
                m2 == kv_set(m, t, pop1(listed(m, t)))
            } else {
                m2 == m
            }
            &&& r.persist
            &&& r.output matches Output::Total(s) && s == sum_of(pop1(listed(m, t)))
        },
        Some(Command::Help) => m2 == m && !r.persist && r.output == Output::Help,
        None => m2 == m && !r.persist && r.output == Output::Unknown,
    }
}

/// Add binds the date to its old entries with the new value at the end: on a
/// date never seen, to the one-element list of that value; on a date with
/// entries, to those entries in their old order followed by the value. No
/// other date changes.
pub proof fn lemma_add_appends(m: Kv, t: Seq<char>, v: u32)
    requires
        wf_kv(m),
        date_key(t),
    ensures
        kv_lookup(kv_set(m, t, listed(m, t).push(v)), t) == Some(listed(m, t).push(v)),
        !kv_has(m, t) ==> kv_lookup(kv_set(m, t, listed(m, t).push(v)), t) == Some(seq![v]),
        forall|k: Seq<char>|
            k != t ==> kv_lookup(kv_set(m, t, listed(m, t).push(v)), k) == kv_lookup(m, k),
{
    crate::store::lemma_kv_set(m, t, listed(m, t).push(v));
    if !kv_has(m, t) {
        assert(listed(m, t).push(v) =~= seq![v]);
    }
}

/// Pop on a date that is absent or whose entry list is empty changes what
/// every lookup reads — nothing.
pub proof fn lemma_pop_noop(m: Kv, t: Seq<char>, k: Seq<char>)
    requires
        wf_kv(m),
        listed(m, t).len() == 0,
    ensures
        kv_lookup(
            if kv_has(m, t) {
                kv_set(m, t, pop1(listed(m, t)))
            } else {
                m
            },
            k,
        ) == kv_lookup(m, k),
{
    if kv_has(m, t) {
        let i = crate::store::kv_index_of(m, t);
        assert(0 <= i < m.len() && m[i].0 == t);
        assert(date_key(m[i].0));
        crate::store::lemma_kv_set(m, t, pop1(listed(m, t)));
        if k == t {
            assert(kv_lookup(m, t) == Some(listed(m, t)));
            assert(pop1(listed(m, t)) == listed(m, t));
        }
    }
}

/// Repeatedly popping an entry list of `n` entries `n` times empties it:
/// every nonempty list loses exactly its last entry per pop.
pub open spec fn pop_n(vs: Seq<u32>, n: nat) -> Seq<u32>
    decreases n,
{
    if n == 0 {
        vs
    } else {
        pop_n(pop1(vs), (n - 1) as nat)
    }
}

pub proof fn lemma_pops_empty(vs: Seq<u32>)
    ensures
        vs.len() > 0 ==> pop1(vs).len() == vs.len() - 1,
        pop_n(vs, vs.len()) == Seq::<u32>::empty(),
    decreases vs.len(),
{
    if vs.len() == 0 {
        assert(vs =~= Seq::<u32>::empty());
    } else {
        lemma_pops_empty(vs.drop_last());
        assert(pop_n(vs, vs.len()) == pop_n(vs.drop_last(), (vs.len() - 1) as nat));
    }
}

/// Clear removes the date key entirely: the date then reads as absent and
/// its sum as zero, indistinguishable from a date never populated, and no
/// other date changes.
pub proof fn lemma_clear_removes(m: Kv, t: Seq<char>)
    requires
        wf_kv(m),
    ensures
        !kv_has(kv_remove(m, t), t),
        kv_lookup(kv_remove(m, t), t) is None,
        sum_of(listed(kv_remove(m, t), t)) == 0,
        forall|k: Seq<char>| k != t ==> kv_lookup(kv_remove(m, t), k) == kv_lookup(m, k),
{
    crate::store::lemma_kv_remove(m, t);
}

/// A date that is absent reads as no entries, and its sum as zero.
pub proof fn lemma_absent_reads_zero(m: Kv, t: Seq<char>)
    requires
        !kv_has(m, t),
    ensures
        listed(m, t) == Seq::<u32>::empty(),
        sum_of(listed(m, t)) == 0,
{
}

fn clone_entries(v: &Vec<u32>) -> (r: Vec<u32>)
    ensures
        r@ == v@,
{
    let n = v.len();
    let mut r: Vec<u32> = Vec::new();
    let mut i: usize = 0;
    while i < n
        invariant
            n == v@.len(),
            0 <= i <= n,
            r@ == v@.subrange(0, i as int),
        decreases n - i,
    {
        r.push(v[i]);
        proof {
            assert(r@ =~= v@.subrange(0, i as int + 1));
        }
        i += 1;
    }
    proof {
        assert(r@ =~= v@);
    }
    r
}

/// Relies on `chrono::offset::Local::now` and the `%Y-%m-%d` formatting of
/// `chrono::NaiveDate` for today's calendar date. The result depends on the
/// clock and the local time zone, so nothing is promised of it.
#[verifier::external_body]
fn today_date_key() -> String {
    chrono::Local::now().date_naive().format("%Y-%m-%d").to_string()
}

/// The command layer: owns the store for the process lifetime and handles
/// one invocation against it.
pub struct CliHandler {
    calories_data: CaloriesData,
}

impl View for CliHandler {
    type V = Kv;

    closed spec fn view(&self) -> Kv {
        self.calories_data.data@
    }
}

impl CliHandler {
    pub open spec fn wf(&self) -> bool {
        wf_kv(self@)
    }

    pub fn new(calories_data: CaloriesData) -> (r: CliHandler)
        ensures
            r@ == calories_data.data@,
    {
        CliHandler { calories_data }
    }

    /// The store, for the caller that persists it.
    pub fn store(&self) -> (r: &CaloriesData)
        ensures
            r.data@ == self@,
    {
        &self.calories_data
    }

    /// Reads the command and, for Add, its numeric argument, exactly as the
    /// command table says.
    pub fn parse_args(args: Vec<String>) -> (r: (Option<Command>, Option<u32>))
        ensures
            r.0 == spec_cmd(args@),
            r.1 == spec_val(args@),
    {
        if args.len() == 0 {
            return (None, None);
        }
        let a0 = args[0].as_str();
        let cmd = if str_eq(a0, "add") || str_eq(a0, "-a") {
            Some(Command::Add)
        } else if str_eq(a0, "ls") || str_eq(a0, "list") || str_eq(a0, "-l") {
            Some(Command::List)
        } else if str_eq(a0, "listdetails") || str_eq(a0, "-ld") {
            Some(Command::ListDetails)
        } else if str_eq(a0, "clear") || str_eq(a0, "-c") {
            Some(Command::Clear)
        } else if str_eq(a0, "pop") || str_eq(a0, "-p") {
            Some(Command::Pop)
        } else if str_eq(a0, "help") || str_eq(a0, "-h") {
            Some(Command::Help)
        } else {
            None
        };
        let val = match cmd {
            Some(Command::Add) => if args.len() >= 2 {
                parse_u32(args[1].as_str())
            } else {
                None
            },
            _ => None,
        };
        (cmd, val)
    }

    /// Handles one invocation against a given date key.
    pub fn handle_for_date(&mut self, today: &str, args: Vec<String>) -> (r: Response)
        requires
            old(self).wf(),
            date_key(today@),
        ensures
            final(self).wf(),
            dispatch_post(old(self)@, today@, args@, final(self)@, r),
    {
        let (cmd, val) = Self::parse_args(args);
        match cmd {
            Some(Command::Add) => match val {
                Some(v) => {
                    let mut list: Vec<u32> = match self.calories_data.data.get_calories_by_date(
                        today,
                    ) {
                        Some(l) => clone_entries(l),
                        None => Vec::new(),
                    };
                    list.push(v);
                    proof {
                        assert(list@ =~= listed(old(self)@, today@).push(v));
                    }
                    let total = sum_entries(&list);
                    self.calories_data.data.set_calories_by_date(today, list);
                    Response { output: Output::Total(total), persist: true }
                },
                None => Response { output: Output::AddUsage, persist: false },
            },
            Some(Command::List) => {
                let total = match self.calories_data.data.get_calories_by_date(today) {
                    Some(l) => sum_entries(l),
                    None => 0,
                };
                Response { output: Output::Total(total), persist: false }
            },
            Some(Command::ListDetails) => {
                let (entries, total) = match self.calories_data.data.get_calories_by_date(today) {
                    Some(l) => {
                        let c = clone_entries(l);
                        let t = sum_entries(&c);
                        (c, t)
                    },
                    None => (Vec::new(), 0),
                };
                proof {
                    assert(entries@ =~= listed(self@, today@));
                }
                Response { output: Output::Details(entries, total), persist: false }
            },
            Some(Command::Clear) => {
                self.calories_data.data.clear_calories_by_date(today);
                Response { output: Output::Total(0), persist: true }
            },
            Some(Command::Pop) => {
                match self.calories_data.data.get_calories_by_date(today) {
                    Some(l) => {
                        let mut list = clone_entries(l);
                        list.pop();
                        proof {
                            assert(list@ =~= pop1(listed(old(self)@, today@)));
                        }
                        let total = sum_entries(&list);
                        self.calories_data.data.set_calories_by_date(today, list);
                        Response { output: Output::Total(total), persist: true }
                    },
                    None => Response { output: Output::Total(0), persist: true },
                }
            },
            Some(Command::Help) => Response { output: Output::Help, persist: false },
            None => Response { output: Output::Unknown, persist: false },
        }
    }

    /// Handles one invocation against today's date, as the platform clock
    /// gives it. `None` is returned only when the clock's output is not a
    /// date key (a year outside four digits), and then nothing changed.
    pub fn handle_args(&mut self, args: Vec<String>) -> (r: Option<Response>)
        requires
            old(self).wf(),
        ensures
            final(self).wf(),
            match r {
                Some(resp) => exists|t: Seq<char>|
                    #[trigger] date_key(t) && dispatch_post(old(self)@, t, args@, final(self)@, resp),
                None => final(self)@ == old(self)@,
            },
    {
        let today = today_date_key();
        if is_date_key(today.as_str()) {
            let ghost t = today@;
            let resp = self.handle_for_date(today.as_str(), args);
            proof {
                assert(date_key(t) && dispatch_post(old(self)@, t, args@, self@, resp));
            }
            Some(resp)
        } else {
            None
        }
    }
}

} // verus!
