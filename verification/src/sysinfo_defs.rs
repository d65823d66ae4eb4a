//! One machine's hardware snapshot and its key-value summary view.
//!
//! The snapshot itself is filled in by an external telemetry collector; this
//! module only holds the record and derives the labelled key-value view used
//! for presentation. Counts are rendered in decimal by a verified formatter.

use vstd::hash_map::StringHashMap;
use vstd::prelude::*;
use vstd::string::StringExecFns;

verus! {

/// What a collector could read of one disk; a field is `None` where the
/// collector could not read it.
#[derive(Debug, Clone)]
pub struct SystemDisks {
    pub disk_type: Option<String>,
    pub file_system: Option<String>,
    pub free_space: Option<String>,
}

/// An immutable record of one machine's static and runtime resource facts.
#[derive(Debug, Clone)]
pub struct SystemInfo {
    pub system_name: String,
    pub kernel_version: String,
    pub os_version: String,
    pub hostname: String,
    pub cpu_cores: usize,
    pub cpu_virtual_cores: usize,
    pub total_memory: u64,
    pub used_memory: u64,
    pub total_swap: u64,
    pub used_swap: u64,
    pub disks: Vec<SystemDisks>,
}

/// The decimal digit character for `d`.
pub open spec fn digit_char(d: int) -> char
    recommends
        0 <= d <= 9,
{
    if d == 0 {
        '0'
    } else if d == 1 {
        '1'
    } else if d == 2 {
        '2'
    } else if d == 3 {
        '3'
    } else if d == 4 {
        '4'
    } else if d == 5 {
        '5'
    } else if d == 6 {
        '6'
    } else if d == 7 {
        '7'
    } else if d == 8 {
        '8'
    } else {
        '9'
    }
}

/// The decimal numeral of `n`, most significant digit first, no leading
/// zeroes (zero itself is "0").
pub open spec fn decimal_of(n: int) -> Seq<char>
    recommends
        n >= 0,
    decreases n,
{
    if n < 10 {
        seq![digit_char(n)]
    } else {
        decimal_of(n / 10) + seq![digit_char(n % 10)]
    }
}

/// Renders one decimal digit.
fn digit_str(d: u64) -> (r: &'static str)
    requires
        d <= 9,
    ensures
        r@ == seq![digit_char(d as int)],
{
    proof {
        reveal_strlit("0");
        reveal_strlit("1");
        reveal_strlit("2");
        reveal_strlit("3");
        reveal_strlit("4");
        reveal_strlit("5");
        reveal_strlit("6");
        reveal_strlit("7");
        reveal_strlit("8");
        reveal_strlit("9");
    }
    match d {
        0 => "0",
        1 => "1",
        2 => "2",
        3 => "3",
        4 => "4",
        5 => "5",
        6 => "6",
        7 => "7",
        8 => "8",
        _ => "9",
    }
}

/// Formats a count in decimal.
pub fn u64_to_string(n: u64) -> (r: String)
    ensures
        r@ == decimal_of(n as int),
    decreases n,
{
    if n < 10 {
        String::from_str(digit_str(n))
    } else {
        proof {
            assert(n as int / 10 < n as int) by (nonlinear_arith)
                requires
                    n >= 10,
            ;
        }
        let mut s = u64_to_string(n / 10);
        s.append(digit_str(n % 10));
        s
    }
}

/// Formats a count in decimal.
pub fn usize_to_string(n: usize) -> (r: String)
    ensures
        r@ == decimal_of(n as int),
{
    u64_to_string(n as u64)
}

/// The views of a summary map's values.
pub open spec fn string_views(m: Map<Seq<char>, String>) -> Map<Seq<char>, Seq<char>> {
    m.map_values(|v: String| v@)
}

/// The labelled fixed-field entries of a snapshot's summary.
pub open spec fn base_info_map(si: SystemInfo) -> Map<Seq<char>, Seq<char>> {
    Map::empty()
        .insert("System Name"@, si.system_name@)
        .insert("System kernel version"@, si.kernel_version@)
        .insert("System OS version"@, si.os_version@)
        .insert("Hostname"@, si.hostname@)
        .insert("CPU Cores"@, decimal_of(si.cpu_cores as int))
        .insert("CPU Virtual Cores"@, decimal_of(si.cpu_virtual_cores as int))
        .insert("Total Memory"@, decimal_of(si.total_memory as int))
        .insert("Used Memory"@, decimal_of(si.used_memory as int))
        .insert("Total Swap"@, decimal_of(si.total_swap as int))
        .insert("Used Swap"@, decimal_of(si.used_swap as int))
}

/// The entries one disk adds to the summary: a label for each field the
/// collector could read.
pub open spec fn disk_entries(m: Map<Seq<char>, Seq<char>>, d: SystemDisks) -> Map<
    Seq<char>,
    Seq<char>,
> {
    let m1 = match d.disk_type {
        Option::Some(v) => m.insert("Disk Type"@, v@),
        Option::None => m,
    };
    let m2 = match d.file_system {
        Option::Some(v) => m1.insert("File System"@, v@),
        Option::None => m1,
    };
    match d.free_space {
        Option::Some(v) => m2.insert("Free Space"@, v@),
        Option::None => m2,
    }
}

/// The summary after the disks have added their entries in order: the labels
/// are shared, so a later disk overwrites an earlier one's entries, as in a
/// map keyed by label.
pub open spec fn disk_fold(m: Map<Seq<char>, Seq<char>>, disks: Seq<SystemDisks>) -> Map<
    Seq<char>,
    Seq<char>,
>
    decreases disks.len(),
{
    if disks.len() == 0 {
        m
    } else {
        disk_fold(disk_entries(m, disks[0]), disks.drop_first())
    }
}

/// The whole key-value summary view of a snapshot.
pub open spec fn info_map_of(si: SystemInfo) -> Map<Seq<char>, Seq<char>> {
    disk_fold(base_info_map(si), si.disks@)
}

proof fn lemma_disk_fold_push(m: Map<Seq<char>, Seq<char>>, disks: Seq<SystemDisks>, d: SystemDisks)
    ensures
        disk_fold(m, disks.push(d)) == disk_entries(disk_fold(m, disks), d),
    decreases disks.len(),
{
    assert(disks.push(d)[0] == if disks.len() == 0 { d } else { disks[0] });
    if disks.len() == 0 {
        assert(disks.push(d).drop_first() =~= Seq::<SystemDisks>::empty());
        assert(disk_fold(disk_entries(m, d), Seq::<SystemDisks>::empty()) == disk_entries(m, d));
        assert(disk_fold(m, disks.push(d)) == disk_fold(
            disk_entries(m, d),
            disks.push(d).drop_first(),
        ));
        assert(disk_fold(m, disks) == m);
    } else {
        assert(disks.push(d).drop_first() =~= disks.drop_first().push(d));
        lemma_disk_fold_push(disk_entries(m, disks[0]), disks.drop_first(), d);
    }
}

impl SystemInfo {
    /// Derives the labelled key-value summary of this snapshot: one entry per
    /// fixed field, then the readable fields of each disk in order.
    pub fn to_hashmap(&self) -> (r: StringHashMap<String>)
        ensures
            string_views(r@) == info_map_of(*self),
    {
        let mut infomap = StringHashMap::<String>::new();

        infomap.insert(String::from_str("System Name"), self.system_name.clone());
        infomap.insert(String::from_str("System kernel version"), self.kernel_version.clone());
        infomap.insert(String::from_str("System OS version"), self.os_version.clone());
        infomap.insert(String::from_str("Hostname"), self.hostname.clone());
        infomap.insert(String::from_str("CPU Cores"), usize_to_string(self.cpu_cores));
        infomap.insert(String::from_str("CPU Virtual Cores"), usize_to_string(self.cpu_virtual_cores));
        infomap.insert(String::from_str("Total Memory"), u64_to_string(self.total_memory));
        infomap.insert(String::from_str("Used Memory"), u64_to_string(self.used_memory));
        infomap.insert(String::from_str("Total Swap"), u64_to_string(self.total_swap));
        infomap.insert(String::from_str("Used Swap"), u64_to_string(self.used_swap));

        assert(string_views(infomap@) =~= base_info_map(*self));

        let ghost base = infomap@;
        for i in 0..self.disks.len()
            invariant
                string_views(infomap@) == disk_fold(base_info_map(*self), self.disks@.take(i as int)),
        {
            let disk = &self.disks[i];
            if let Some(disk_type) = &disk.disk_type {
                infomap.insert(String::from_str("Disk Type"), disk_type.clone());
            }
            if let Some(file_system) = &disk.file_system {
                infomap.insert(String::from_str("File System"), file_system.clone());
            }
            if let Some(free_space) = &disk.free_space {
                infomap.insert(String::from_str("Free Space"), free_space.clone());
            }
            proof {
                assert(string_views(infomap@) =~= disk_entries(
                    disk_fold(base_info_map(*self), self.disks@.take(i as int)),
                    self.disks@[i as int],
                ));
                lemma_disk_fold_push(base_info_map(*self), self.disks@.take(i as int), self.disks@[i as int]);
                assert(self.disks@.take(i as int).push(self.disks@[i as int]) =~= self.disks@.take(
                    i as int + 1,
                ));
            }
        }
        proof {
            assert(self.disks@.take(self.disks@.len() as int) =~= self.disks@);
        }
        infomap
    }
}

} // verus!
