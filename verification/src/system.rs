//! Hardware and system facts drawn from text that the system publishes.

use vstd::prelude::*;
use vstd::string::*;

use crate::number::{bounded_of, decimal, parse_u64, parse_u8, show};
use crate::order::{
    best, law_best, law_ranked_sort, lemma_ranked_weak, order_of, sorted_by, stable_sort, Ranked,
};
use crate::text::{
    blank, contains, field, is_text, law_affixes, law_rows, law_split, law_split_once,
    lemma_occurs_between, lemma_trimmed_lead, lemma_views_push, lines, lines_of, occurs, opt, rows,
    rows_of, same_text, split_at_most, split_once, split_once_at, splitn, starts_with, strip_prefix,
    to_chars, to_text, trim, trimmed, views, without_prefix, words, words_of, LineReader,
};
use crate::theme::{bytes_text, fmt_bytes};

verus! {

/// A label and a value.
pub type Row = (String, String);

/// The views of a label and a value.
pub type RowView = (Seq<char>, Seq<char>);

/// A row; a dash stands for a value that is not known.
pub open spec fn row_of(label: Seq<char>, value: Seq<char>) -> RowView {
    (
        label,
        if value.len() == 0 {
            "—"@
        } else {
            value
        },
    )
}

pub fn row(label: &str, value: String) -> (r: Row)
    ensures
        r@ == row_of(label@, value@),
{
    let empty = to_chars(value.as_str()).len() == 0;
    (
        label.to_owned(),
        if empty {
            "—".to_owned()
        } else {
            value
        },
    )
}

// --- key and value files ----------------------------------------------------

/// A text without the quotation marks around it.
pub open spec fn unquoted_start(s: Seq<char>) -> Seq<char>
    decreases s.len(),
{
    if s.len() > 0 && s[0] == '"' {
        unquoted_start(s.skip(1))
    } else {
        s
    }
}

pub open spec fn unquoted_end(s: Seq<char>) -> Seq<char>
    decreases s.len(),
{
    if s.len() > 0 && s.last() == '"' {
        unquoted_end(s.drop_last())
    } else {
        s
    }
}

fn unquote<'a>(s: &'a [char]) -> (r: &'a [char])
    ensures
        r@ == unquoted_end(unquoted_start(s@)),
{
    let mut i: usize = 0;
    assert(s@.skip(0) =~= s@);
    while i < s.len() && s[i] == '"'
        invariant
            i <= s@.len(),
            unquoted_start(s@) == unquoted_start(s@.skip(i as int)),
        decreases s@.len() - i,
    {
        assert(s@.skip(i as int).skip(1) =~= s@.skip(i as int + 1));
        i += 1;
    }
    let ghost t = s@.skip(i as int);
    assert(unquoted_start(s@) == t);
    let mut j: usize = s.len();
    assert(s@.subrange(i as int, j as int) =~= t);
    while j > i && s[j - 1] == '"'
        invariant
            i <= j <= s@.len(),
            unquoted_end(t) == unquoted_end(s@.subrange(i as int, j as int)),
        decreases j,
    {
        assert(s@.subrange(i as int, j as int).drop_last() =~= s@.subrange(i as int, j as int - 1));
        j -= 1;
    }
    vstd::slice::slice_subrange(s, i, j)
}

/// The value of the last line `key=value` with this key, nothing without one.
pub open spec fn setting(ls: Seq<Seq<char>>, key: Seq<char>) -> Seq<char>
    decreases ls.len(),
{
    if ls.len() == 0 {
        Seq::empty()
    } else {
        match split_once_at(ls.last(), "="@) {
            Some((k, v)) => if trimmed(k) == key {
                unquoted_end(unquoted_start(trimmed(v)))
            } else {
                setting(ls.drop_last(), key)
            },
            None => setting(ls.drop_last(), key),
        }
    }
}

/// Reads one key of a file of `key=value` lines.
pub fn parse_kv(text: &str, key: &str) -> (r: String)
    ensures
        r@ == setting(lines_of(text@), key@),
{
    let c = to_chars(text);
    let ls = lines(&c);
    let ghost vs = views(ls@);
    let mut i: usize = ls.len();
    assert(vs.take(i as int) =~= vs);
    while i > 0
        invariant
            i <= ls@.len(),
            vs == views(ls@),
            vs == lines_of(text@),
            setting(vs, key@) == setting(vs.take(i as int), key@),
        decreases i,
    {
        assert(vs.take(i as int).last() == ls@[i - 1]@);
        assert(vs.take(i as int).drop_last() =~= vs.take(i as int - 1));
        if let Some((k, v)) = split_once(ls[i - 1], "=") {
            if is_text(trim(k), key) {
                return to_text(unquote(trim(v)));
            }
        }
        i -= 1;
    }
    String::new()
}

// --- processor --------------------------------------------------------------

/// The value of a line `key: value` with this key.
pub open spec fn cpu_value(line: Seq<char>, key: Seq<char>) -> Option<Seq<char>> {
    match split_once_at(line, ":"@) {
        Some((k, v)) => if trimmed(k) == key {
            Some(trimmed(v))
        } else {
            None
        },
        None => None,
    }
}

/// The first value for a key that is not empty.
pub open spec fn first_filled(ls: Seq<Seq<char>>, key: Seq<char>) -> Seq<char>
    decreases ls.len(),
{
    if ls.len() == 0 {
        Seq::empty()
    } else {
        match cpu_value(ls[0], key) {
            Some(v) => if v.len() > 0 {
                v
            } else {
                first_filled(ls.skip(1), key)
            },
            None => first_filled(ls.skip(1), key),
        }
    }
}

/// How many lines have this key.
pub open spec fn lines_with(ls: Seq<Seq<char>>, key: Seq<char>) -> nat
    decreases ls.len(),
{
    if ls.len() == 0 {
        0
    } else {
        lines_with(ls.drop_last(), key) + (if cpu_value(ls.last(), key) is Some {
            1nat
        } else {
            0nat
        })
    }
}

fn find_filled(ls: &Vec<&[char]>, key: &str) -> (r: String)
    ensures
        r@ == first_filled(views(ls@), key@),
{
    let ghost vs = views(ls@);
    let mut i: usize = 0;
    assert(vs.skip(0) =~= vs);
    while i < ls.len()
        invariant
            i <= ls@.len(),
            vs == views(ls@),
            first_filled(vs, key@) == first_filled(vs.skip(i as int), key@),
        decreases ls@.len() - i,
    {
        assert(vs.skip(i as int)[0] == ls@[i as int]@);
        if let Some((k, v)) = split_once(ls[i], ":") {
            if is_text(trim(k), key) {
                let t = trim(v);
                if t.len() > 0 {
                    return to_text(t);
                }
            }
        }
        assert(vs.skip(i as int).skip(1) =~= vs.skip(i as int + 1));
        i += 1;
    }
    String::new()
}

fn count_lines(ls: &Vec<&[char]>, key: &str) -> (r: usize)
    ensures
        r == lines_with(views(ls@), key@),
{
    let ghost vs = views(ls@);
    let mut n: usize = 0;
    let mut i: usize = 0;
    while i < ls.len()
        invariant
            n <= i <= ls@.len(),
            vs == views(ls@),
            n == lines_with(vs.take(i as int), key@),
        decreases ls@.len() - i,
    {
        assert(vs.take(i as int + 1).drop_last() =~= vs.take(i as int));
        assert(vs.take(i as int + 1).last() == ls@[i as int]@);
        if let Some((k, _)) = split_once(ls[i], ":") {
            if is_text(trim(k), key) {
                n += 1;
            }
        }
        i += 1;
    }
    assert(vs.take(i as int) =~= vs);
    n
}

/// What the processor listing says.
pub struct CpuFields {
    pub model: String,
    /// The clock in MHz, as written.
    pub mhz: String,
    pub cores: String,
    pub threads: usize,
}

/// Reads the processor listing.
pub fn cpu_fields(text: &str) -> (r: CpuFields)
    ensures
        r.model@ == first_filled(lines_of(text@), "model name"@),
        r.mhz@ == first_filled(lines_of(text@), "cpu MHz"@),
        r.cores@ == first_filled(lines_of(text@), "cpu cores"@),
        r.threads == lines_with(lines_of(text@), "processor"@),
{
    let c = to_chars(text);
    let ls = lines(&c);
    CpuFields {
        model: find_filled(&ls, "model name"),
        mhz: find_filled(&ls, "cpu MHz"),
        cores: find_filled(&ls, "cpu cores"),
        threads: count_lines(&ls, "processor"),
    }
}

/// The processor's rows; the clock, a number of MHz, is shown where it could
/// be read.
pub open spec fn cpu_rows_of(
    model: Seq<char>,
    cores: Seq<char>,
    threads: nat,
    clock: Option<Seq<char>>,
) -> Seq<RowView> {
    seq![row_of("Model"@, model)] + (if cores.len() > 0 {
        seq![row_of("Cores"@, cores)]
    } else {
        seq![]
    }) + seq![row_of("Threads"@, decimal(threads))] + (match clock {
        Some(c) => seq![row_of("Clock"@, c + " MHz"@)],
        None => seq![],
    })
}

pub fn cpu_rows(cpu: CpuFields, clock: Option<String>) -> (r: Vec<Row>)
    ensures
        views(r@) == cpu_rows_of(cpu.model@, cpu.cores@, cpu.threads as nat, opt(clock)),
{
    broadcast use lemma_views_push;

    let mut r: Vec<Row> = Vec::new();
    let has_cores = to_chars(cpu.cores.as_str()).len() > 0;
    r.push(row("Model", cpu.model));
    assert(views(r@) =~= seq![row_of("Model"@, cpu.model@)]);
    if has_cores {
        r.push(row("Cores", cpu.cores));
    }
    r.push(row("Threads", show(cpu.threads as u64)));
    if let Some(c) = &clock {
        let mut mhz = c.as_str().to_owned();
        mhz.append(" MHz");
        r.push(row("Clock", mhz));
    }
    assert(views(r@) =~= cpu_rows_of(
        cpu.model@,
        cpu.cores@,
        cpu.threads as nat,
        opt(clock),
    ));
    r
}

// --- memory -----------------------------------------------------------------

/// The amount in KiB that the first line with this prefix gives.
pub open spec fn kib_of(ls: Seq<Seq<char>>, key: Seq<char>) -> Option<nat>
    decreases ls.len(),
{
    if ls.len() == 0 {
        None
    } else {
        match without_prefix(ls[0], key) {
            Some(rest) => if words_of(rest).len() > 0 {
                bounded_of(words_of(rest)[0], u64::MAX as nat)
            } else {
                None
            },
            None => kib_of(ls.skip(1), key),
        }
    }
}

fn find_kib(ls: &Vec<&[char]>, key: &str) -> (r: Option<u64>)
    ensures
        (match r {
            Some(v) => Some(v as nat),
            None => None,
        }) == kib_of(views(ls@), key@),
{
    let ghost vs = views(ls@);
    let mut i: usize = 0;
    assert(vs.skip(0) =~= vs);
    while i < ls.len()
        invariant
            i <= ls@.len(),
            vs == views(ls@),
            kib_of(vs, key@) == kib_of(vs.skip(i as int), key@),
        decreases ls@.len() - i,
    {
        assert(vs.skip(i as int)[0] == ls@[i as int]@);
        if let Some(rest) = strip_prefix(ls[i], key) {
            let w = words(rest);
            if w.len() == 0 {
                return None;
            }
            assert(views(w@)[0] == w@[0]@);
            return parse_u64(w[0]);
        }
        assert(vs.skip(i as int).skip(1) =~= vs.skip(i as int + 1));
        i += 1;
    }
    None
}

/// Whether an amount in KiB fits in 64 bits as bytes.
pub open spec fn bytes_fit(kib: Option<nat>) -> bool {
    kib matches Some(k) ==> k * 1024 <= u64::MAX
}

/// Whether the memory listing's amounts fit in 64 bits as bytes.
pub fn mem_fits(text: &str) -> (r: bool)
    ensures
        r == (bytes_fit(kib_of(lines_of(text@), "MemTotal:"@)) && bytes_fit(
            kib_of(lines_of(text@), "SwapTotal:"@),
        )),
{
    let c = to_chars(text);
    let ls = lines(&c);
    let ram_fits = match find_kib(&ls, "MemTotal:") {
        Some(k) => k <= u64::MAX / 1024,
        None => true,
    };
    let swap_fits = match find_kib(&ls, "SwapTotal:") {
        Some(k) => k <= u64::MAX / 1024,
        None => true,
    };
    ram_fits && swap_fits
}

/// The memory's rows.
pub open spec fn mem_rows_of(ram: Option<nat>, swap: Option<nat>) -> Seq<RowView> {
    (match ram {
        Some(k) => seq![row_of("RAM total"@, bytes_text(k * 1024))],
        None => seq![],
    }) + seq![
        row_of(
            "Swap total"@,
            match swap {
                Some(k) => if k > 0 {
                    bytes_text(k * 1024)
                } else {
                    "none"@
                },
                None => "none"@,
            },
        ),
    ]
}

pub fn mem_rows(text: &str) -> (r: Vec<Row>)
    requires
        bytes_fit(kib_of(lines_of(text@), "MemTotal:"@)),
        bytes_fit(kib_of(lines_of(text@), "SwapTotal:"@)),
    ensures
        views(r@) == mem_rows_of(
            kib_of(lines_of(text@), "MemTotal:"@),
            kib_of(lines_of(text@), "SwapTotal:"@),
        ),
{
    broadcast use lemma_views_push;

    let c = to_chars(text);
    let ls = lines(&c);
    let ram = find_kib(&ls, "MemTotal:");
    let swap = find_kib(&ls, "SwapTotal:");
    let mut r: Vec<Row> = Vec::new();
    assert(views(r@) =~= Seq::<RowView>::empty());
    if let Some(k) = ram {
        r.push(row("RAM total", fmt_bytes(k * 1024)));
    }
    let value = match swap {
        Some(k) => if k > 0 {
            fmt_bytes(k * 1024)
        } else {
            "none".to_owned()
        },
        None => "none".to_owned(),
    };
    r.push(row("Swap total", value));
    assert(views(r@) =~= mem_rows_of(
        kib_of(lines_of(text@), "MemTotal:"@),
        kib_of(lines_of(text@), "SwapTotal:"@),
    ));
    r
}

// --- graphics ---------------------------------------------------------------

/// The adapter that a line of the device listing names, if it is a display
/// adapter.
pub open spec fn gpu_row(line: Seq<char>) -> Option<Seq<char>> {
    let display = occurs(line, "VGA compatible controller"@) || occurs(line, "3D controller"@)
        || occurs(line, "Display controller"@);
    let parts = split_at_most(line, ":"@, 3);
    if display && parts.len() > 2 {
        Some(trimmed(parts[2]))
    } else {
        None
    }
}

/// Reads a line of the device listing.
pub struct GpuLine;

impl LineReader for GpuLine {
    type Row = String;

    open spec fn row_of(line: Seq<char>) -> Option<Seq<char>> {
        gpu_row(line)
    }

    fn read(line: &[char]) -> (r: Option<String>) {
        if !contains(line, "VGA compatible controller") && !contains(line, "3D controller")
            && !contains(line, "Display controller") {
            return None;
        }
        let parts = splitn(line, 3, ":");
        if parts.len() > 2 {
            assert(views(parts@)[2] == parts@[2]@);
            Some(to_text(trim(parts[2])))
        } else {
            None
        }
    }
}

pub fn gpus(out: &str) -> (r: Vec<String>)
    ensures
        views(r@) == rows_of::<GpuLine>(out@),
{
    rows::<GpuLine>(out)
}

// --- temperatures -----------------------------------------------------------

/// A thermal zone: its label and its reading in thousandths of a degree
/// Celsius.
#[derive(Clone)]
pub struct Zone {
    pub label: String,
    pub milli: i64,
}

#[verifier::ext_equal]
pub struct ZoneView {
    pub label: Seq<char>,
    pub milli: i64,
}

impl View for Zone {
    type V = ZoneView;

    open spec fn view(&self) -> ZoneView {
        ZoneView { label: self.label@, milli: self.milli }
    }
}

impl Ranked for Zone {
    open spec fn precedes(a: ZoneView, b: ZoneView) -> bool {
        a.milli > b.milli
    }

    fn before(&self, other: &Self) -> (r: bool) {
        self.milli > other.milli
    }

    proof fn law_precedes(a: ZoneView, b: ZoneView, c: ZoneView) {
    }
}

/// How many zones are shown.
pub const ZONES: usize = 8;

/// The hottest zones, hottest first.
pub fn temps(zones: Vec<Zone>) -> (r: Vec<Zone>)
    ensures
        views(r@) == best(views(zones@), order_of::<Zone>(), ZONES as nat),
{
    let mut v = stable_sort(zones);
    let ghost s = views(v@);
    if v.len() > ZONES {
        v.truncate(ZONES);
        assert(views(v@) =~= s.take(ZONES as int));
    }
    v
}

/// Whether a name is that of a thermal zone.
pub fn is_zone(name: &str) -> (r: bool)
    ensures
        r == "thermal_zone"@.is_prefix_of(name@),
{
    starts_with(&to_chars(name), "thermal_zone")
}

/// A reading that a working sensor can give: above zero, at most 150 degrees.
pub open spec fn plausible(milli: i64) -> bool {
    0 < milli <= 150_000
}

/// The first plausible reading of the processor's own zone.
pub open spec fn package_temp(zones: Seq<ZoneView>) -> Option<i64>
    decreases zones.len(),
{
    if zones.len() == 0 {
        None
    } else if zones[0].label == "x86_pkg_temp"@ && plausible(zones[0].milli) {
        Some(zones[0].milli)
    } else {
        package_temp(zones.skip(1))
    }
}

/// The highest plausible reading.
pub open spec fn hottest(zones: Seq<ZoneView>) -> Option<i64>
    decreases zones.len(),
{
    if zones.len() == 0 {
        None
    } else {
        let t = zones.last().milli;
        match hottest(zones.drop_last()) {
            Some(h) => if plausible(t) && t > h {
                Some(t)
            } else {
                Some(h)
            },
            None => if plausible(t) {
                Some(t)
            } else {
                None
            },
        }
    }
}

/// The processor's temperature: its own zone's where that is plausible, or
/// else the hottest plausible one.
pub open spec fn cpu_temp(zones: Seq<ZoneView>) -> Option<i64> {
    match package_temp(zones) {
        Some(t) => Some(t),
        None => hottest(zones),
    }
}

pub fn pick_cpu_temp(zones: &[Zone]) -> (r: Option<i64>)
    ensures
        r == cpu_temp(views(zones@)),
{
    let ghost vs = views(zones@);
    let mut i: usize = 0;
    assert(vs.skip(0) =~= vs);
    while i < zones.len()
        invariant
            i <= zones@.len(),
            vs == views(zones@),
            package_temp(vs) == package_temp(vs.skip(i as int)),
        decreases zones@.len() - i,
    {
        assert(vs.skip(i as int)[0] == zones@[i as int]@);
        let t = zones[i].milli;
        if same_text(zones[i].label.as_str(), "x86_pkg_temp") && 0 < t && t <= 150_000 {
            return Some(t);
        }
        assert(vs.skip(i as int).skip(1) =~= vs.skip(i as int + 1));
        i += 1;
    }
    let mut top: Option<i64> = None;
    let mut j: usize = 0;
    while j < zones.len()
        invariant
            j <= zones@.len(),
            vs == views(zones@),
            top == hottest(vs.take(j as int)),
        decreases zones@.len() - j,
    {
        assert(vs.take(j as int + 1).drop_last() =~= vs.take(j as int));
        assert(vs.take(j as int + 1).last() == zones@[j as int]@);
        let t = zones[j].milli;
        if 0 < t && t <= 150_000 {
            top = match top {
                Some(h) => if t > h {
                    Some(t)
                } else {
                    Some(h)
                },
                None => Some(t),
            };
        }
        j += 1;
    }
    assert(vs.take(j as int) =~= vs);
    top
}

/// A temperature that is picked is plausible and some zone's reading; without
/// the processor's own zone none is hotter; and one is picked wherever a zone
/// is plausible.
pub proof fn law_cpu_temp(zones: Seq<ZoneView>)
    ensures
        cpu_temp(zones) matches Some(t) ==> plausible(t) && exists|i: int|
            0 <= i < zones.len() && (#[trigger] zones[i]).milli == t,
        package_temp(zones) is None ==> forall|i: int|
            0 <= i < zones.len() && plausible((#[trigger] zones[i]).milli) ==> cpu_temp(
                zones,
            ) is Some && zones[i].milli <= cpu_temp(zones)->0,
{
    lemma_package(zones);
    lemma_hottest(zones);
}

proof fn lemma_package(zones: Seq<ZoneView>)
    ensures
        package_temp(zones) matches Some(t) ==> plausible(t) && exists|i: int|
            0 <= i < zones.len() && (#[trigger] zones[i]).milli == t,
    decreases zones.len(),
{
    if zones.len() > 0 {
        lemma_package(zones.skip(1));
        if zones[0].label == "x86_pkg_temp"@ && plausible(zones[0].milli) {
            assert(zones[0].milli == package_temp(zones)->0);
        } else if let Some(t) = package_temp(zones.skip(1)) {
            let i = choose|i: int|
                0 <= i < zones.skip(1).len() && (#[trigger] zones.skip(1)[i]).milli == t;
            assert(zones[i + 1].milli == t);
        }
    }
}

proof fn lemma_hottest(zones: Seq<ZoneView>)
    ensures
        hottest(zones) matches Some(t) ==> plausible(t) && exists|i: int|
            0 <= i < zones.len() && (#[trigger] zones[i]).milli == t,
        forall|i: int|
            0 <= i < zones.len() && plausible((#[trigger] zones[i]).milli) ==> hottest(
                zones,
            ) is Some && zones[i].milli <= hottest(zones)->0,
    decreases zones.len(),
{
    if zones.len() > 0 {
        let rest = zones.drop_last();
        lemma_hottest(rest);
        assert forall|i: int|
            0 <= i < zones.len() && plausible((#[trigger] zones[i]).milli) implies hottest(zones) is Some
            && zones[i].milli <= hottest(zones)->0 by {
            if i < rest.len() {
                assert(rest[i] == zones[i]);
            }
        }
        if let Some(t) = hottest(zones) {
            if t == zones.last().milli {
                assert(zones[zones.len() - 1].milli == t);
            } else {
                let i = choose|i: int| 0 <= i < rest.len() && (#[trigger] rest[i]).milli == t;
                assert(zones[i].milli == t);
            }
        }
    }
}

// --- battery ----------------------------------------------------------------

/// A power supply's name, those of batteries first.
pub struct SupplyName {
    pub name: String,
}

impl View for SupplyName {
    type V = Seq<char>;

    open spec fn view(&self) -> Seq<char> {
        self.name@
    }
}

impl Ranked for SupplyName {
    open spec fn precedes(a: Seq<char>, b: Seq<char>) -> bool {
        "BAT"@.is_prefix_of(a) && !"BAT"@.is_prefix_of(b)
    }

    fn before(&self, other: &Self) -> (r: bool) {
        starts_with(&to_chars(self.name.as_str()), "BAT") && !starts_with(
            &to_chars(other.name.as_str()),
            "BAT",
        )
    }

    proof fn law_precedes(a: Seq<char>, b: Seq<char>, c: Seq<char>) {
    }
}

/// Puts the names that begin with `BAT` first.
pub fn order_supplies(names: Vec<SupplyName>) -> (r: Vec<SupplyName>)
    ensures
        views(r@) == sorted_by(views(names@), order_of::<SupplyName>()),
{
    stable_sort(names)
}

/// What a power supply says of itself.
pub struct Supply {
    pub kind: String,
    pub capacity: String,
    pub status: String,
}

pub struct SupplyView {
    pub kind: Seq<char>,
    pub capacity: Seq<char>,
    pub status: Seq<char>,
}

impl View for Supply {
    type V = SupplyView;

    open spec fn view(&self) -> SupplyView {
        SupplyView { kind: self.kind@, capacity: self.capacity@, status: self.status@ }
    }
}

/// The status and the charge of the first supply that is a battery whose
/// charge can be read.
pub open spec fn battery_of(supplies: Seq<SupplyView>) -> Option<(Seq<char>, u8)>
    decreases supplies.len(),
{
    if supplies.len() == 0 {
        None
    } else {
        let s = supplies[0];
        match bounded_of(s.capacity, 255) {
            Some(pct) => if s.kind == "Battery"@ {
                Some(
                    (
                        if s.status.len() == 0 {
                            "Unknown"@
                        } else {
                            s.status
                        },
                        pct as u8,
                    ),
                )
            } else {
                battery_of(supplies.skip(1))
            },
            None => battery_of(supplies.skip(1)),
        }
    }
}

/// The view of a battery.
pub open spec fn battery_view(b: Option<(String, u8)>) -> Option<(Seq<char>, u8)> {
    match b {
        Some((s, p)) => Some((s@, p)),
        None => None,
    }
}

pub fn battery(supplies: &[Supply]) -> (r: Option<(String, u8)>)
    ensures
        battery_view(r) == battery_of(views(supplies@)),
{
    let ghost vs = views(supplies@);
    let mut i: usize = 0;
    assert(vs.skip(0) =~= vs);
    while i < supplies.len()
        invariant
            i <= supplies@.len(),
            vs == views(supplies@),
            battery_of(vs) == battery_of(vs.skip(i as int)),
        decreases supplies@.len() - i,
    {
        assert(vs.skip(i as int)[0] == supplies@[i as int]@);
        let s = &supplies[i];
        let c = to_chars(s.capacity.as_str());
        if let Some(pct) = parse_u8(&c) {
            if same_text(s.kind.as_str(), "Battery") {
                let blank = to_chars(s.status.as_str()).len() == 0;
                let status = if blank {
                    "Unknown".to_owned()
                } else {
                    s.status.as_str().to_owned()
                };
                return Some((status, pct));
            }
        }
        assert(vs.skip(i as int).skip(1) =~= vs.skip(i as int + 1));
        i += 1;
    }
    None
}

// --- machine ----------------------------------------------------------------

/// Where the firmware's field of this name stands.
pub fn dmi(field: &str) -> (r: String)
    ensures
        r@ == "/sys/class/dmi/id/"@ + field@,
{
    let mut p = "/sys/class/dmi/id/".to_owned();
    p.append(field);
    p
}

/// The firmware's version and date, as far as both are known.
pub open spec fn bios_of(version: Seq<char>, date: Seq<char>) -> Seq<char> {
    if version.len() == 0 {
        Seq::empty()
    } else if date.len() == 0 {
        version
    } else {
        version + "  ·  "@ + date
    }
}

pub fn bios_line(version: &str, date: &str) -> (r: String)
    ensures
        r@ == bios_of(version@, date@),
{
    if to_chars(version).len() == 0 {
        return String::new();
    }
    let mut s = version.to_owned();
    if to_chars(date).len() > 0 {
        s.append("  ·  ");
        s.append(date);
    }
    s
}

/// What was read of the system and the machine.
pub struct Readings {
    pub os_release: String,
    pub kernel: String,
    pub arch: String,
    pub hostname: String,
    pub vendor: String,
    pub model: String,
    pub board: String,
    pub bios_version: String,
    pub bios_date: String,
}

/// The system's rows.
pub open spec fn os_rows_of(
    os_release: Seq<char>,
    kernel: Seq<char>,
    arch: Seq<char>,
    hostname: Seq<char>,
) -> Seq<RowView> {
    let ls = lines_of(os_release);
    seq![
        row_of("Distribution"@, setting(ls, "PRETTY_NAME"@)),
        row_of("Version"@, setting(ls, "VERSION"@)),
        row_of("Kernel"@, kernel),
        row_of("Architecture"@, arch),
        row_of("Hostname"@, hostname),
    ]
}

/// The machine's rows.
pub open spec fn machine_rows_of(
    vendor: Seq<char>,
    model: Seq<char>,
    board: Seq<char>,
    bios: Seq<char>,
) -> Seq<RowView> {
    seq![
        row_of("Vendor"@, vendor),
        row_of("Model"@, model),
        row_of("Board"@, board),
        row_of("BIOS"@, bios),
    ]
}

/// What the system tab shows.
pub struct SystemInfo {
    pub os: Vec<Row>,
    pub machine: Vec<Row>,
    pub cpu: Vec<Row>,
    pub memory: Vec<Row>,
    pub gpus: Vec<String>,
    /// The hottest zones.
    pub temps: Vec<Zone>,
    /// Status and charge.
    pub battery: Option<(String, u8)>,
}

/// Assembles what the system tab shows.
pub fn collect(
    r: Readings,
    cpu: Vec<Row>,
    memory: Vec<Row>,
    gpus: Vec<String>,
    zones: Vec<Zone>,
    supplies: &[Supply],
) -> (info: SystemInfo)
    ensures
        views(info.os@) == os_rows_of(r.os_release@, r.kernel@, r.arch@, r.hostname@),
        views(info.machine@) == machine_rows_of(
            r.vendor@,
            r.model@,
            r.board@,
            bios_of(r.bios_version@, r.bios_date@),
        ),
        info.cpu == cpu,
        info.memory == memory,
        info.gpus == gpus,
        views(info.temps@) == best(views(zones@), order_of::<Zone>(), ZONES as nat),
        battery_view(info.battery) == battery_of(views(supplies@)),
{
    let name = parse_kv(r.os_release.as_str(), "PRETTY_NAME");
    let version = parse_kv(r.os_release.as_str(), "VERSION");
    let mut os: Vec<Row> = Vec::new();
    os.push(row("Distribution", name));
    os.push(row("Version", version));
    os.push(row("Kernel", r.kernel));
    os.push(row("Architecture", r.arch));
    os.push(row("Hostname", r.hostname));
    assert(views(os@) =~= os_rows_of(r.os_release@, r.kernel@, r.arch@, r.hostname@));
    let bios = bios_line(r.bios_version.as_str(), r.bios_date.as_str());
    let mut machine: Vec<Row> = Vec::new();
    machine.push(row("Vendor", r.vendor));
    machine.push(row("Model", r.model));
    machine.push(row("Board", r.board));
    machine.push(row("BIOS", bios));
    assert(views(machine@) =~= machine_rows_of(
        r.vendor@,
        r.model@,
        r.board@,
        bios_of(r.bios_version@, r.bios_date@),
    ));
    SystemInfo {
        os,
        machine,
        cpu,
        memory,
        gpus,
        temps: temps(zones),
        battery: battery(supplies),
    }
}

/// The system tab's worker: whether a reading may start, and the last one.
pub struct SystemProbe {
    pub state: Option<SystemInfo>,
    pub running: bool,
}

impl SystemProbe {
    pub fn new() -> (r: Self)
        ensures
            r.state is None,
            !r.running,
    {
        SystemProbe { state: None, running: false }
    }

    /// Whether a reading starts now.
    pub fn gather(&mut self) -> (start: bool)
        ensures
            start == !old(self).running,
            final(self).running,
            final(self).state == old(self).state,
    {
        if self.running {
            return false;
        }
        self.running = true;
        true
    }

    /// Takes in a finished reading.
    pub fn gathered(&mut self, info: SystemInfo)
        ensures
            final(self).state == Some(info),
            !final(self).running,
    {
        self.state = Some(info);
        self.running = false;
    }
}

// --- what the readings must satisfy -----------------------------------------

/// A device of one of the three display classes gives its name, which follows
/// the colon behind its class; a line with fewer colons or of any other class
/// gives none.
pub proof fn law_adapter(
    bus: Seq<char>,
    device: Seq<char>,
    class: Seq<char>,
    name: Seq<char>,
    line: Seq<char>,
)
    requires
        !bus.contains(':'),
        !device.contains(':'),
        class == "VGA compatible controller"@ || class == "3D controller"@ || class
            == "Display controller"@,
    ensures
        gpu_row(bus + seq![':'] + device + seq![' '] + class + seq![':', ' '] + name) == Some(
            trimmed(name),
        ),
        !occurs(line, "VGA compatible controller"@) && !occurs(line, "3D controller"@) && !occurs(
            line,
            "Display controller"@,
        ) ==> gpu_row(line) is None,
        gpu_row(bus) is None,
        gpu_row(bus + seq![':'] + device) is None,
{
    reveal_strlit(":");
    reveal_strlit("VGA compatible controller");
    reveal_strlit("3D controller");
    reveal_strlit("Display controller");
    assert(":"@ =~= seq![':']);
    let s = bus + seq![':'] + device + seq![' '] + class + seq![':', ' '] + name;
    let mid = device + seq![' '] + class;
    let tail = seq![' '] + name;
    assert(s =~= bus + seq![':'] + (mid + seq![':'] + tail));
    assert(!mid.contains(':')) by {
        if mid.contains(':') {
            let k = choose|k: int| 0 <= k < mid.len() && mid[k] == ':';
            if k < device.len() {
                assert(device[k] == ':');
            } else if k > device.len() {
                assert(class[k - device.len() - 1] == ':');
            }
        }
    }
    law_split(bus, mid + seq![':'] + tail, ':', 3);
    law_split(mid, tail, ':', 2);
    assert(split_at_most(s, ":"@, 3) =~= seq![bus, mid, tail]);
    assert(s =~= (bus + seq![':'] + device + seq![' ']) + class + (seq![':', ' '] + name));
    lemma_occurs_between(bus + seq![':'] + device + seq![' '], class, seq![':', ' '] + name);
    assert(blank(seq![' ']));
    lemma_trimmed_lead(seq![' '], name);
    law_split(bus, device, ':', 3);
    law_split(device, device, ':', 2);
}

/// A value that is not known is shown as a dash.
pub proof fn law_row(label: Seq<char>, value: Seq<char>)
    ensures
        value.len() > 0 ==> row_of(label, value) == (label, value),
        value.len() == 0 ==> row_of(label, value) == (label, "—"@),
{
}

/// Quotation marks come off on both sides.
pub proof fn law_unquoted(before: Seq<char>, core: Seq<char>, after: Seq<char>)
    requires
        forall|i: int| 0 <= i < before.len() ==> #[trigger] before[i] == '"',
        forall|i: int| 0 <= i < after.len() ==> #[trigger] after[i] == '"',
        core.len() > 0,
        core[0] != '"',
        core.last() != '"',
    ensures
        unquoted_end(unquoted_start(before + core + after)) == core,
    decreases before.len() + after.len(),
{
    let s = before + core + after;
    if before.len() > 0 {
        assert(s[0] == before[0]);
        let b = before.skip(1);
        assert(s.skip(1) =~= b + core + after);
        assert forall|i: int| 0 <= i < b.len() implies #[trigger] b[i] == '"' by {
            assert(b[i] == before[i + 1]);
        }
        law_unquoted(b, core, after);
    } else {
        assert(s[0] == core[0]);
        assert(unquoted_start(s) == s);
        if after.len() > 0 {
            assert(s.last() == after[after.len() - 1]);
            let a = after.drop_last();
            assert(s.drop_last() =~= before + core + a);
            assert forall|i: int| 0 <= i < a.len() implies #[trigger] a[i] == '"' by {
                assert(a[i] == after[i]);
            }
            law_unquoted(before, core, a);
            assert((before + core + a)[0] == core[0]);
            assert(unquoted_start(before + core + a) == before + core + a);
        } else {
            assert(s =~= core);
        }
    }
}

/// Of the settings of a file the last of each key counts, without the space
/// and the quotation marks around it.
pub proof fn law_setting(ls: Seq<Seq<char>>, k: Seq<char>, v: Seq<char>, key: Seq<char>)
    requires
        !k.contains('='),
    ensures
        trimmed(k) == key ==> setting(ls.push(k + seq!['='] + v), key) == unquoted_end(
            unquoted_start(trimmed(v)),
        ),
        trimmed(k) != key ==> setting(ls.push(k + seq!['='] + v), key) == setting(ls, key),
        setting(ls.push(k), key) == setting(ls, key),
        setting(Seq::empty(), key).len() == 0,
{
    reveal_strlit("=");
    assert("="@ =~= seq!['=']);
    law_split_once(k, v, '=');
    assert(ls.push(k + seq!['='] + v).drop_last() =~= ls);
    assert(ls.push(k).drop_last() =~= ls);
}

/// Of the processor's lines the first value for a key that is not blank
/// counts, and lines of one key are counted one by one.
pub proof fn law_cpu_lines(ls: Seq<Seq<char>>, k: Seq<char>, v: Seq<char>, key: Seq<char>)
    requires
        !k.contains(':'),
    ensures
        ({
            let line = k + seq![':'] + v;
            &&& trimmed(k) == key && trimmed(v).len() > 0 ==> first_filled(seq![line] + ls, key)
                == trimmed(v)
            &&& !(trimmed(k) == key && trimmed(v).len() > 0) ==> first_filled(seq![line] + ls, key)
                == first_filled(ls, key)
            &&& trimmed(k) == key ==> lines_with(ls.push(line), key) == lines_with(ls, key) + 1
            &&& trimmed(k) != key ==> lines_with(ls.push(line), key) == lines_with(ls, key)
        }),
        first_filled(seq![k] + ls, key) == first_filled(ls, key),
        lines_with(ls.push(k), key) == lines_with(ls, key),
        first_filled(Seq::empty(), key).len() == 0,
        lines_with(Seq::empty(), key) == 0,
{
    reveal_strlit(":");
    assert(":"@ =~= seq![':']);
    let line = k + seq![':'] + v;
    law_split_once(k, v, ':');
    assert((seq![line] + ls).skip(1) =~= ls);
    assert((seq![k] + ls).skip(1) =~= ls);
    assert(ls.push(line).drop_last() =~= ls);
    assert(ls.push(k).drop_last() =~= ls);
}

/// The processor's rows: its model and its threads always, its cores and its
/// clock where they are known.
pub proof fn law_cpu_rows(model: Seq<char>, cores: Seq<char>, threads: nat, mhz: Seq<char>)
    requires
        cores.len() > 0,
    ensures
        cpu_rows_of(model, Seq::empty(), threads, None) == seq![
            row_of("Model"@, model),
            row_of("Threads"@, decimal(threads)),
        ],
        cpu_rows_of(model, cores, threads, None) == seq![
            row_of("Model"@, model),
            row_of("Cores"@, cores),
            row_of("Threads"@, decimal(threads)),
        ],
        cpu_rows_of(model, Seq::empty(), threads, Some(mhz)) == seq![
            row_of("Model"@, model),
            row_of("Threads"@, decimal(threads)),
            row_of("Clock"@, mhz + " MHz"@),
        ],
        cpu_rows_of(model, cores, threads, Some(mhz)) == seq![
            row_of("Model"@, model),
            row_of("Cores"@, cores),
            row_of("Threads"@, decimal(threads)),
            row_of("Clock"@, mhz + " MHz"@),
        ],
{
    assert(cpu_rows_of(model, Seq::empty(), threads, None) =~= seq![
        row_of("Model"@, model),
        row_of("Threads"@, decimal(threads)),
    ]);
    assert(cpu_rows_of(model, cores, threads, None) =~= seq![
        row_of("Model"@, model),
        row_of("Cores"@, cores),
        row_of("Threads"@, decimal(threads)),
    ]);
    assert(cpu_rows_of(model, Seq::empty(), threads, Some(mhz)) =~= seq![
        row_of("Model"@, model),
        row_of("Threads"@, decimal(threads)),
        row_of("Clock"@, mhz + " MHz"@),
    ]);
    assert(cpu_rows_of(model, cores, threads, Some(mhz)) =~= seq![
        row_of("Model"@, model),
        row_of("Cores"@, cores),
        row_of("Threads"@, decimal(threads)),
        row_of("Clock"@, mhz + " MHz"@),
    ]);
}

/// The first line that begins with the key gives its first word, where that is
/// a number; nothing behind it counts.
pub proof fn law_kib(ls: Seq<Seq<char>>, key: Seq<char>, rest: Seq<char>, line: Seq<char>)
    ensures
        words_of(rest).len() > 0 ==> kib_of(seq![key + rest] + ls, key) == bounded_of(
            words_of(rest)[0],
            u64::MAX as nat,
        ),
        words_of(rest).len() == 0 ==> kib_of(seq![key + rest] + ls, key) is None,
        !key.is_prefix_of(line) ==> kib_of(seq![line] + ls, key) == kib_of(ls, key),
        kib_of(Seq::empty(), key) is None,
{
    law_affixes(key, rest, rest);
    assert((seq![key + rest] + ls).skip(1) =~= ls);
    assert((seq![line] + ls).skip(1) =~= ls);
}

/// The memory's rows: the RAM where it is known, and the swap or that there is
/// none.
pub proof fn law_mem_rows(ram: nat, swap: nat)
    requires
        swap > 0,
    ensures
        mem_rows_of(Some(ram), Some(swap)) == seq![
            row_of("RAM total"@, bytes_text(ram * 1024)),
            row_of("Swap total"@, bytes_text(swap * 1024)),
        ],
        mem_rows_of(Some(ram), Some(0)) == seq![
            row_of("RAM total"@, bytes_text(ram * 1024)),
            row_of("Swap total"@, "none"@),
        ],
        mem_rows_of(Some(ram), None) == mem_rows_of(Some(ram), Some(0)),
        mem_rows_of(None, Some(swap)) == seq![row_of("Swap total"@, bytes_text(swap * 1024))],
        mem_rows_of(None, None) == seq![row_of("Swap total"@, "none"@)],
{
    assert(mem_rows_of(Some(ram), Some(swap)) =~= seq![
        row_of("RAM total"@, bytes_text(ram * 1024)),
        row_of("Swap total"@, bytes_text(swap * 1024)),
    ]);
    assert(mem_rows_of(Some(ram), Some(0)) =~= seq![
        row_of("RAM total"@, bytes_text(ram * 1024)),
        row_of("Swap total"@, "none"@),
    ]);
    assert(mem_rows_of(None, Some(swap)) =~= seq![
        row_of("Swap total"@, bytes_text(swap * 1024)),
    ]);
    assert(mem_rows_of(None, None) =~= seq![row_of("Swap total"@, "none"@)]);
}

/// At most eight zones are shown, the hottest, hotter ones first; none that is
/// left out is hotter than one of them.
pub proof fn law_hottest_zones(zones: Seq<ZoneView>)
    ensures
        ({
            let b = best(zones, order_of::<Zone>(), ZONES as nat);
            &&& zones.len() <= 8 ==> b.to_multiset() == zones.to_multiset()
            &&& zones.len() > 8 ==> b.len() == 8
            &&& forall|i: int, j: int|
                0 <= i < j < b.len() ==> (#[trigger] b[i]).milli >= (#[trigger] b[j]).milli
            &&& exists|rest: Seq<ZoneView>|
                #![trigger b + rest]
                (b + rest).to_multiset() == zones.to_multiset() && forall|i: int, j: int|
                    0 <= i < b.len() && 0 <= j < rest.len() ==> (#[trigger] rest[j]).milli <= (
                    #[trigger] b[i]).milli
        }),
{
    let lt = order_of::<Zone>();
    lemma_ranked_weak::<Zone>();
    law_best(zones, lt, ZONES as nat);
    let b = best(zones, lt, ZONES as nat);
    assert forall|i: int, j: int| 0 <= i < j < b.len() implies (#[trigger] b[i]).milli >= (
    #[trigger] b[j]).milli by {
        assert(!lt(b[j], b[i]));
    }
    let rest = choose|rest: Seq<ZoneView>|
        #![trigger b + rest]
        (b + rest).to_multiset() == zones.to_multiset() && forall|i: int, j: int|
            0 <= i < b.len() && 0 <= j < rest.len() ==> !lt(#[trigger] rest[j], #[trigger] b[i]);
    assert forall|i: int, j: int| 0 <= i < b.len() && 0 <= j < rest.len() implies (
    #[trigger] rest[j]).milli <= (#[trigger] b[i]).milli by {
        assert(!lt(rest[j], b[i]));
    }
    assert((b + rest).to_multiset() == zones.to_multiset());
}

/// The processor's own zone decides where it reads above zero and at most 150
/// degrees, the first of several; else the hottest such reading of any zone,
/// and none where no zone has one.
pub proof fn law_processor_temperature(zones: Seq<ZoneView>, k: int)
    ensures
        0 <= k < zones.len() && zones[k].label == "x86_pkg_temp"@ && 0 < zones[k].milli
            && zones[k].milli <= 150_000 && (forall|i: int|
            0 <= i < k ==> !((#[trigger] zones[i]).label == "x86_pkg_temp"@ && 0 < zones[i].milli
                && zones[i].milli <= 150_000)) ==> cpu_temp(zones) == Some(zones[k].milli),
        (forall|i: int|
            0 <= i < zones.len() ==> !((#[trigger] zones[i]).label == "x86_pkg_temp"@ && 0
                < zones[i].milli && zones[i].milli <= 150_000)) ==> (match cpu_temp(zones) {
            Some(t) => 0 < t && t <= 150_000 && (exists|i: int|
                0 <= i < zones.len() && (#[trigger] zones[i]).milli == t) && forall|i: int|
                0 <= i < zones.len() && 0 < (#[trigger] zones[i]).milli && zones[i].milli <= 150_000
                    ==> zones[i].milli <= t,
            None => forall|i: int|
                0 <= i < zones.len() ==> !(0 < (#[trigger] zones[i]).milli && zones[i].milli
                    <= 150_000),
        }),
{
    lemma_package_at(zones, k);
    lemma_hottest(zones);
}

proof fn lemma_package_at(zones: Seq<ZoneView>, k: int)
    ensures
        0 <= k < zones.len() && zones[k].label == "x86_pkg_temp"@ && plausible(zones[k].milli) && (
        forall|i: int|
            0 <= i < k ==> !((#[trigger] zones[i]).label == "x86_pkg_temp"@ && plausible(
                zones[i].milli,
            ))) ==> package_temp(zones) == Some(zones[k].milli),
        (forall|i: int|
            0 <= i < zones.len() ==> !((#[trigger] zones[i]).label == "x86_pkg_temp"@ && plausible(
                zones[i].milli,
            ))) ==> package_temp(zones) is None,
    decreases zones.len(),
{
    if zones.len() > 0 {
        let rest = zones.skip(1);
        lemma_package_at(rest, k - 1);
        let here = zones[0].label == "x86_pkg_temp"@ && plausible(zones[0].milli);
        if 0 < k < zones.len() && (forall|i: int|
            0 <= i < k ==> !((#[trigger] zones[i]).label == "x86_pkg_temp"@ && plausible(
                zones[i].milli,
            ))) {
            assert(!here);
            assert forall|i: int| 0 <= i < k - 1 implies !((#[trigger] rest[i]).label
                == "x86_pkg_temp"@ && plausible(rest[i].milli)) by {
                assert(rest[i] == zones[i + 1]);
            }
        }
        if forall|i: int|
            0 <= i < zones.len() ==> !((#[trigger] zones[i]).label == "x86_pkg_temp"@ && plausible(
                zones[i].milli,
            )) {
            assert(!here);
            assert forall|i: int| 0 <= i < rest.len() implies !((#[trigger] rest[i]).label
                == "x86_pkg_temp"@ && plausible(rest[i].milli)) by {
                assert(rest[i] == zones[i + 1]);
            }
        }
    }
}

/// The first supply that is a battery with a charge that can be read counts.
pub proof fn law_battery(s: SupplyView, rest: Seq<SupplyView>)
    ensures
        s.kind != "Battery"@ ==> battery_of(seq![s] + rest) == battery_of(rest),
        bounded_of(s.capacity, 255) is None ==> battery_of(seq![s] + rest) == battery_of(rest),
        s.kind == "Battery"@ ==> (bounded_of(s.capacity, 255) matches Some(n) ==> (battery_of(
            seq![s] + rest,
        ) matches Some((status, charge)) && charge == n && (s.status.len() > 0 ==> status
            == s.status) && (s.status.len() == 0 ==> status == "Unknown"@))),
        battery_of(Seq::empty()) is None,
{
    assert((seq![s] + rest).skip(1) =~= rest);
}

/// Batteries stand ahead of other supplies, in the order they had.
pub proof fn law_batteries_first(names: Seq<Seq<char>>, i: int, j: int)
    requires
        0 <= i < j < sorted_by(names, order_of::<SupplyName>()).len(),
    ensures
        "BAT"@.is_prefix_of(sorted_by(names, order_of::<SupplyName>())[j]) ==> "BAT"@.is_prefix_of(
            sorted_by(names, order_of::<SupplyName>())[i],
        ),
        sorted_by(names, order_of::<SupplyName>()).to_multiset() == names.to_multiset(),
{
    law_ranked_sort::<SupplyName>(names);
    let t = sorted_by(names, order_of::<SupplyName>());
    assert(!order_of::<SupplyName>()(t[j], t[i]));
}

/// The firmware is said with its date where both are known, and not at all
/// without its version.
pub proof fn law_bios(version: Seq<char>, date: Seq<char>)
    ensures
        version.len() == 0 ==> bios_of(version, date).len() == 0,
        version.len() > 0 && date.len() == 0 ==> bios_of(version, date) == version,
        version.len() > 0 && date.len() > 0 ==> bios_of(version, date) == version + "  ·  "@ + date,
{
}

/// The system's and the machine's rows, in order.
pub proof fn law_system_rows(
    os_release: Seq<char>,
    a: Seq<char>,
    b: Seq<char>,
    c: Seq<char>,
    d: Seq<char>,
)
    ensures
        os_rows_of(os_release, a, b, c).len() == 5,
        os_rows_of(os_release, a, b, c)[0] == row_of(
            "Distribution"@,
            setting(lines_of(os_release), "PRETTY_NAME"@),
        ),
        os_rows_of(os_release, a, b, c)[1] == row_of(
            "Version"@,
            setting(lines_of(os_release), "VERSION"@),
        ),
        os_rows_of(os_release, a, b, c)[2] == row_of("Kernel"@, a),
        os_rows_of(os_release, a, b, c)[3] == row_of("Architecture"@, b),
        os_rows_of(os_release, a, b, c)[4] == row_of("Hostname"@, c),
        machine_rows_of(a, b, c, d) == seq![
            row_of("Vendor"@, a),
            row_of("Model"@, b),
            row_of("Board"@, c),
            row_of("BIOS"@, d),
        ],
{
}

/// What is said of a zone and a supply is said of the fields.
pub proof fn law_fields(zone: Zone, name: SupplyName, supply: Supply)
    ensures
        zone@.label == zone.label@,
        zone@.milli == zone.milli,
        name@ == name.name@,
        supply@.kind == supply.kind@,
        supply@.capacity == supply.capacity@,
        supply@.status == supply.status@,
{
}

/// A listing is read line by line: the adapters.
pub proof fn law_adapter_lines(line: Seq<char>, rest: Seq<char>)
    requires
        !line.contains('\n'),
        !seq!['\r'].is_suffix_of(line),
    ensures
        gpu_row(line) matches Some(row) ==> rows_of::<GpuLine>(line + seq!['\n'] + rest) == seq![
            row,
        ] + rows_of::<GpuLine>(rest),
        gpu_row(line) is None ==> rows_of::<GpuLine>(line + seq!['\n'] + rest) == rows_of::<GpuLine>(
            rest,
        ),
        rows_of::<GpuLine>(Seq::empty()).len() == 0,
{
    law_rows::<GpuLine>(line, rest);
}

/// A battery stands for its state and its charge.
pub proof fn law_battery_texts(b: Option<(String, u8)>)
    ensures
        b is None ==> battery_view(b) is None,
        b matches Some((s, p)) ==> battery_view(b) == Some((s@, p)),
{
}

/// Kibibytes fit where their bytes have at most 64 bits.
pub proof fn law_bytes_fit(kib: nat)
    ensures
        bytes_fit(None),
        bytes_fit(Some(kib)) <==> kib * 1024 <= 0xffff_ffff_ffff_ffff,
{
}

} // verus!
