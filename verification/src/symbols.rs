//! Best-effort symbolization of instruction pointers.
//!
//! An address is located in the target's memory map, converted to a file offset
//! and then to a virtual address via the binary's loaded segments, and finally
//! matched against its symbol table. Anything that cannot be resolved degrades
//! gracefully to the owning module plus the raw address, which is still a valid
//! (if coarse) frame.

use object::{Object, ObjectSegment, ObjectSymbol};
use vstd::prelude::*;
use vstd::slice::slice_subrange;

use crate::intern::{grown, grown_all};
use crate::model::{opt_text, views, Frame, FrameView};
use crate::number::{hexadecimal, parse_unsigned, push_hexadecimal, read_unsigned};
use crate::sorting::{orders, ranks, stable_order};
use crate::text::{
    chars_of, find, find_last, first_of, is_white, last_of, lemma_first_of, lines, pieces,
    split_lines, string_of, trim, trimmed, white,
};

verus! {

/// One executable, file-backed region of a memory map.
#[derive(Debug)]
pub struct MapEntry {
    pub start: u64,
    pub end: u64,
    pub file_offset: u64,
    pub path: String,
}

/// What a [`MapEntry`] says.
#[verifier::ext_equal]
pub struct MapView {
    pub start: u64,
    pub end: u64,
    pub file_offset: u64,
    pub path: Seq<char>,
}

impl View for MapEntry {
    type V = MapView;

    open spec fn view(&self) -> MapView {
        MapView {
            start: self.start,
            end: self.end,
            file_offset: self.file_offset,
            path: self.path@,
        }
    }
}

/// A function symbol: its virtual address, size (0 if unknown), and name.
#[derive(Debug)]
pub struct FuncSym {
    pub vaddr: u64,
    pub size: u64,
    pub name: String,
}

/// What a [`FuncSym`] says.
#[verifier::ext_equal]
pub struct FuncView {
    pub vaddr: u64,
    pub size: u64,
    pub name: Seq<char>,
}

impl View for FuncSym {
    type V = FuncView;

    open spec fn view(&self) -> FuncView {
        FuncView { vaddr: self.vaddr, size: self.size, name: self.name@ }
    }
}

/// A loaded segment: maps file offsets `[offset, offset+size)` to virtual
/// addresses.
#[derive(Debug, Clone, Copy)]
pub struct Load {
    pub offset: u64,
    pub size: u64,
    pub vaddr: u64,
}

/// Parsed data of one binary: function symbols sorted by address, and the
/// segments needed to turn a file offset into a virtual address.
#[derive(Debug)]
pub struct Module {
    pub funcs: Vec<FuncSym>,
    pub loads: Vec<Load>,
}

/// What a [`Module`] says.
#[verifier::ext_equal]
pub struct ModuleView {
    pub funcs: Seq<FuncView>,
    pub loads: Seq<Load>,
}

impl View for Module {
    type V = ModuleView;

    open spec fn view(&self) -> ModuleView {
        ModuleView { funcs: views(self.funcs@), loads: self.loads@ }
    }
}

/// Whether function symbols are sorted by address.
pub open spec fn by_address(funcs: Seq<FuncView>) -> bool {
    forall|i: int, j: int|
        0 <= i < j < funcs.len() ==> (#[trigger] funcs[i]).vaddr <= (#[trigger] funcs[j]).vaddr
}

/// The virtual address that a file offset is loaded at, by the first segment
/// that covers it.
pub open spec fn loaded_at(loads: Seq<Load>, file_offset: u64) -> Option<u64>
    decreases loads.len(),
{
    if loads.len() == 0 {
        None
    } else if loads[0].offset <= file_offset < loads[0].offset + loads[0].size {
        let vaddr = file_offset - loads[0].offset + loads[0].vaddr;
        if vaddr <= u64::MAX {
            Some(vaddr as u64)
        } else {
            None
        }
    } else {
        loaded_at(loads.skip(1), file_offset)
    }
}

/// The last of the symbols, in order, whose address is at most `vaddr`.
pub open spec fn last_not_above(funcs: Seq<FuncView>, vaddr: u64) -> Option<FuncView>
    decreases funcs.len(),
{
    if funcs.len() == 0 {
        None
    } else if funcs.last().vaddr <= vaddr {
        Some(funcs.last())
    } else {
        last_not_above(funcs.drop_last(), vaddr)
    }
}

impl ModuleView {
    /// The name of the function at a file offset: the greatest symbol at or
    /// below its virtual address, where that address falls inside the symbol
    /// if its size is known.
    pub open spec fn function(self, file_offset: u64) -> Option<Seq<char>> {
        match loaded_at(self.loads, file_offset) {
            Some(vaddr) => match last_not_above(self.funcs, vaddr) {
                Some(sym) => if sym.size != 0 && vaddr >= sym.vaddr + sym.size {
                    None
                } else {
                    Some(sym.name)
                },
                None => None,
            },
            None => None,
        }
    }
}

proof fn lemma_last_not_above(funcs: Seq<FuncView>, vaddr: u64, n: int)
    requires
        0 <= n <= funcs.len(),
        forall|i: int| n <= i < funcs.len() ==> (#[trigger] funcs[i]).vaddr > vaddr,
        n > 0 ==> funcs[n - 1].vaddr <= vaddr,
    ensures
        last_not_above(funcs, vaddr) == (if n > 0 {
            Some(funcs[n - 1])
        } else {
            None
        }),
    decreases funcs.len(),
{
    if funcs.len() > n {
        lemma_last_not_above(funcs.drop_last(), vaddr, n);
    }
}

impl Module {
    /// Maps a file offset into a virtual address via the loaded segments.
    pub fn file_offset_to_vaddr(&self, file_offset: u64) -> (r: Option<u64>)
        ensures
            r == loaded_at(self@.loads, file_offset),
            r matches Some(vaddr) ==> exists|i: int|
                {
                    &&& 0 <= i < self.loads.len()
                    &&& (#[trigger] self.loads@[i]).offset <= file_offset
                    &&& file_offset < self.loads@[i].offset + self.loads@[i].size
                    &&& vaddr == file_offset - self.loads@[i].offset + self.loads@[i].vaddr
                    &&& forall|j: int|
                        0 <= j < i ==> !((#[trigger] self.loads@[j]).offset <= file_offset
                            && file_offset < self.loads@[j].offset + self.loads@[j].size)
                },
            r is None ==> forall|i: int|
                0 <= i < self.loads.len() && (#[trigger] self.loads@[i]).offset <= file_offset
                    && file_offset < self.loads@[i].offset + self.loads@[i].size && (forall|j: int|
                    0 <= j < i ==> !((#[trigger] self.loads@[j]).offset <= file_offset && file_offset
                        < self.loads@[j].offset + self.loads@[j].size)) ==> file_offset
                    - self.loads@[i].offset + self.loads@[i].vaddr > u64::MAX,
    {
        let mut i: usize = 0;
        assert(self.loads@.skip(0) =~= self.loads@);
        while i < self.loads.len()
            invariant
                i <= self.loads.len(),
                loaded_at(self.loads@, file_offset) == loaded_at(
                    self.loads@.skip(i as int),
                    file_offset,
                ),
                forall|j: int|
                    0 <= j < i ==> !((#[trigger] self.loads@[j]).offset <= file_offset && file_offset
                        < self.loads@[j].offset + self.loads@[j].size),
            decreases self.loads.len() - i,
        {
            let l = self.loads[i];
            assert(self.loads@.skip(i as int)[0] == l);
            assert(self.loads@.skip(i as int).skip(1) =~= self.loads@.skip(i + 1));
            if file_offset >= l.offset && file_offset - l.offset < l.size {
                return (file_offset - l.offset).checked_add(l.vaddr);
            }
            i = i + 1;
        }
        None
    }

    /// Resolves a file offset to a function name, if one covers it.
    pub fn function_at(&self, file_offset: u64) -> (r: Option<String>)
        requires
            by_address(self@.funcs),
        ensures
            opt_text(r) == self@.function(file_offset),
    {
        let vaddr: u64 = match self.file_offset_to_vaddr(file_offset) {
            Some(vaddr) => vaddr,
            None => return None,
        };
        // The first symbol whose address is above `vaddr`.
        let mut low: usize = 0;
        let mut high: usize = self.funcs.len();
        while low < high
            invariant
                low <= high <= self.funcs.len(),
                by_address(self@.funcs),
                forall|i: int| 0 <= i < low ==> (#[trigger] self@.funcs[i]).vaddr <= vaddr,
                forall|i: int|
                    high <= i < self.funcs.len() ==> (#[trigger] self@.funcs[i]).vaddr > vaddr,
            decreases high - low,
        {
            let mid: usize = low + (high - low) / 2;
            assert(self@.funcs[mid as int].vaddr == self.funcs@[mid as int].vaddr);
            if self.funcs[mid].vaddr <= vaddr {
                low = mid + 1;
            } else {
                high = mid;
            }
        }
        proof {
            if low > 0 {
                assert(self@.funcs[low - 1].vaddr <= vaddr);
            }
            lemma_last_not_above(self@.funcs, vaddr, low as int);
        }
        if low == 0 {
            return None;
        }
        let sym = &self.funcs[low - 1];
        assert(self@.funcs[low - 1] == sym@);
        // If the symbol has a known size, require the address to fall inside it.
        if sym.size != 0 && vaddr - sym.vaddr >= sym.size {
            return None;
        }
        Some(sym.name.clone())
    }
}

/// A symbol of an object file: whether it is a function, its address and size,
/// and its name where that can be read.
pub struct RawSymbol {
    pub text: bool,
    pub address: u64,
    pub size: u64,
    pub name: Option<String>,
}

/// What a [`RawSymbol`] says.
pub struct RawView {
    pub text: bool,
    pub address: u64,
    pub size: u64,
    pub name: Option<Seq<char>>,
}

impl View for RawSymbol {
    type V = RawView;

    open spec fn view(&self) -> RawView {
        RawView {
            text: self.text,
            address: self.address,
            size: self.size,
            name: opt_text(self.name),
        }
    }
}

/// Whether bytes start like an ELF file.
pub open spec fn is_elf(data: Seq<u8>) -> bool {
    data.len() >= 4 && data[0] == 0x7f && data[1] == 0x45 && data[2] == 0x4c && data[3] == 0x46
}

/// The segments that `object::File` finds in the bytes of an ELF file, in
/// order: file offset, size in the file, and virtual address. `None` where the
/// bytes are no ELF file.
pub uninterp spec fn segments_in(data: Seq<u8>) -> Option<Seq<(u64, u64, u64)>>;

/// The symbols that `object::File` finds in the bytes of an ELF file, in
/// order. `None` where the bytes are no ELF file.
pub uninterp spec fn symbols_in(data: Seq<u8>) -> Option<Seq<RawView>>;

/// The dynamic symbols that `object::File` finds in the bytes of an ELF
/// file, in order. `None` where the bytes are no ELF file.
pub uninterp spec fn dynamic_symbols_in(data: Seq<u8>) -> Option<Seq<RawView>>;

/// Reads the segments of an ELF file by `object::File::parse` and
/// `segments`, whose result rests on the bytes alone.
#[verifier::external_body]
fn object_segments(data: &[u8]) -> (r: Option<Vec<(u64, u64, u64)>>)
    requires
        is_elf(data@),
    ensures
        match r {
            Some(list) => segments_in(data@) == Some(list@),
            None => segments_in(data@) is None,
        },
{
    let file = object::File::parse(data).ok()?;
    let list = file.segments().map(
        |segment| (segment.file_range().0, segment.file_range().1, segment.address()),
    );
    Some(list.collect())
}

/// Reads the symbols of an ELF file by `object::File::parse` and `symbols`,
/// whose result rests on the bytes alone.
#[verifier::external_body]
fn object_symbols(data: &[u8]) -> (r: Option<Vec<RawSymbol>>)
    requires
        is_elf(data@),
    ensures
        match r {
            Some(list) => symbols_in(data@) == Some(views(list@)),
            None => symbols_in(data@) is None,
        },
{
    let file = object::File::parse(data).ok()?;
    let list = file.symbols().map(
        |symbol|
            RawSymbol {
                text: symbol.kind() == object::SymbolKind::Text,
                address: symbol.address(),
                size: symbol.size(),
                name: symbol.name().ok().map(str::to_owned),
            },
    );
    Some(list.collect())
}

/// Reads the dynamic symbols of an ELF file by `object::File::parse` and
/// `dynamic_symbols`, whose result rests on the bytes alone.
#[verifier::external_body]
fn object_dynamic_symbols(data: &[u8]) -> (r: Option<Vec<RawSymbol>>)
    requires
        is_elf(data@),
    ensures
        match r {
            Some(list) => dynamic_symbols_in(data@) == Some(views(list@)),
            None => dynamic_symbols_in(data@) is None,
        },
{
    let file = object::File::parse(data).ok()?;
    let list = file.dynamic_symbols().map(
        |symbol|
            RawSymbol {
                text: symbol.kind() == object::SymbolKind::Text,
                address: symbol.address(),
                size: symbol.size(),
                name: symbol.name().ok().map(str::to_owned),
            },
    );
    Some(list.collect())
}

/// The segments that hold something of the file.
pub open spec fn load_list(segments: Seq<(u64, u64, u64)>) -> Seq<Load>
    decreases segments.len(),
{
    if segments.len() == 0 {
        Seq::empty()
    } else {
        let rest = load_list(segments.drop_last());
        let (offset, size, vaddr) = segments.last();
        if size > 0 {
            rest.push(Load { offset, size, vaddr })
        } else {
            rest
        }
    }
}

/// The symbols that are functions with an address and a name.
pub open spec fn func_list(symbols: Seq<RawView>) -> Seq<FuncView>
    decreases symbols.len(),
{
    if symbols.len() == 0 {
        Seq::empty()
    } else {
        let rest = func_list(symbols.drop_last());
        let sym = symbols.last();
        match sym.name {
            Some(name) => if sym.text && sym.address != 0 && name.len() > 0 {
                rest.push(FuncView { vaddr: sym.address, size: sym.size, name })
            } else {
                rest
            },
            None => rest,
        }
    }
}

/// The addresses of function symbols.
pub open spec fn func_keys(funcs: Seq<FuncView>) -> Seq<u64> {
    Seq::new(funcs.len(), |i: int| funcs[i].vaddr)
}

/// The file offsets of segments.
pub open spec fn load_keys(loads: Seq<Load>) -> Seq<u64> {
    Seq::new(loads.len(), |i: int| loads[i].offset)
}

/// Whether `sorted` is `funcs` by address, equal addresses in their order.
pub open spec fn funcs_sorted(funcs: Seq<FuncView>, sorted: Seq<FuncView>) -> bool {
    exists|order: Seq<usize>|
        #![trigger orders(func_keys(funcs), order, 0, funcs.len() as int)]
        orders(func_keys(funcs), order, 0, funcs.len() as int) && sorted == Seq::new(
            order.len(),
            |i: int| funcs[order[i] as int],
        )
}

/// Whether `sorted` is `loads` by file offset, equal offsets in their order.
pub open spec fn loads_sorted(loads: Seq<Load>, sorted: Seq<Load>) -> bool {
    exists|order: Seq<usize>|
        #![trigger orders(load_keys(loads), order, 0, loads.len() as int)]
        orders(load_keys(loads), order, 0, loads.len() as int) && sorted == Seq::new(
            order.len(),
            |i: int| loads[order[i] as int],
        )
}

/// Whether `module` is what the bytes of an ELF file hold: its functions and
/// its segments, each sorted.
pub open spec fn module_of(data: Seq<u8>, module: Option<ModuleView>) -> bool {
    match (segments_in(data), symbols_in(data), dynamic_symbols_in(data)) {
        (Some(segments), Some(symbols), Some(dynamic)) if is_elf(data) => match module {
            Some(m) => {
                &&& funcs_sorted(func_list(symbols + dynamic), m.funcs)
                &&& loads_sorted(load_list(segments), m.loads)
                &&& by_address(m.funcs)
            },
            None => false,
        },
        _ => module is None,
    }
}

fn collect_loads(segments: &Vec<(u64, u64, u64)>) -> (r: Vec<Load>)
    ensures
        r@ == load_list(segments@),
{
    let mut out: Vec<Load> = Vec::new();
    let mut i: usize = 0;
    assert(segments@.take(0) =~= Seq::empty());
    while i < segments.len()
        invariant
            i <= segments.len(),
            out@ == load_list(segments@.take(i as int)),
        decreases segments.len() - i,
    {
        assert(segments@.take(i + 1).drop_last() =~= segments@.take(i as int));
        let (offset, size, vaddr): (u64, u64, u64) = segments[i];
        assert(segments@.take(i + 1).last() == (offset, size, vaddr));
        if size > 0 {
            out.push(Load { offset, size, vaddr });
        }
        i = i + 1;
    }
    assert(segments@.take(i as int) =~= segments@);
    out
}

fn push_funcs(out: &mut Vec<FuncSym>, symbols: &Vec<RawSymbol>, Ghost(before): Ghost<Seq<RawView>>)
    requires
        views(old(out)@) == func_list(before),
    ensures
        views(final(out)@) == func_list(before + views(symbols@)),
{
    let ghost all = views(symbols@);
    let mut i: usize = 0;
    assert(before + all.take(0) =~= before);
    while i < symbols.len()
        invariant
            i <= symbols.len(),
            all == views(symbols@),
            views(out@) == func_list(before + all.take(i as int)),
        decreases symbols.len() - i,
    {
        let ghost next = before + all.take(i + 1);
        let ghost known = views(out@);
        assert(next.drop_last() =~= before + all.take(i as int));
        assert(next.last() == symbols@[i as int]@);
        let sym = &symbols[i];
        if let Some(name) = &sym.name {
            if sym.text && sym.address != 0 && !name.as_str().is_empty() {
                out.push(FuncSym { vaddr: sym.address, size: sym.size, name: name.clone() });
                assert(views(out@) =~= known.push(
                    FuncView { vaddr: sym.address, size: sym.size, name: name@ },
                ));
            }
        }
        i = i + 1;
    }
    assert(before + all.take(i as int) =~= before + all);
}

fn sort_funcs(funcs: &Vec<FuncSym>) -> (r: Vec<FuncSym>)
    ensures
        funcs_sorted(views(funcs@), views(r@)),
        by_address(views(r@)),
{
    let ghost all = views(funcs@);
    let mut keys: Vec<u64> = Vec::new();
    for i in 0..funcs.len()
        invariant
            keys.len() == i,
            forall|j: int| 0 <= j < i ==> keys@[j] == (#[trigger] funcs@[j]).vaddr,
    {
        keys.push(funcs[i].vaddr);
    }
    assert(keys@ =~= func_keys(all));
    let order = stable_order(&keys);
    let mut out: Vec<FuncSym> = Vec::new();
    for i in 0..order.len()
        invariant
            orders(func_keys(all), order@, 0, all.len() as int),
            all == views(funcs@),
            out.len() == i,
            forall|j: int| 0 <= j < i ==> (#[trigger] out@[j])@ == all[order@[j] as int],
    {
        let f = &funcs[order[i]];
        out.push(FuncSym { vaddr: f.vaddr, size: f.size, name: f.name.clone() });
    }
    proof {
        assert(views(out@) =~= Seq::new(order@.len(), |i: int| all[order@[i] as int]));
        assert(orders(func_keys(all), order@, 0, all.len() as int));
        let sorted = views(out@);
        assert forall|i: int, j: int| 0 <= i < j < sorted.len() implies (
        #[trigger] sorted[i]).vaddr <= (#[trigger] sorted[j]).vaddr by {
            assert(ranks(func_keys(all), order@[i] as int, order@[j] as int));
        }
    }
    out
}

fn sort_loads(loads: &Vec<Load>) -> (r: Vec<Load>)
    ensures
        loads_sorted(loads@, r@),
{
    let mut keys: Vec<u64> = Vec::new();
    for i in 0..loads.len()
        invariant
            keys.len() == i,
            forall|j: int| 0 <= j < i ==> keys@[j] == (#[trigger] loads@[j]).offset,
    {
        keys.push(loads[i].offset);
    }
    assert(keys@ =~= load_keys(loads@));
    let order = stable_order(&keys);
    let mut out: Vec<Load> = Vec::new();
    for i in 0..order.len()
        invariant
            orders(load_keys(loads@), order@, 0, loads@.len() as int),
            out.len() == i,
            forall|j: int| 0 <= j < i ==> (#[trigger] out@[j]) == loads@[order@[j] as int],
    {
        out.push(loads[order[i]]);
    }
    proof {
        assert(out@ =~= Seq::new(order@.len(), |i: int| loads@[order@[i] as int]));
        assert(orders(load_keys(loads@), order@, 0, loads@.len() as int));
    }
    out
}

/// Whether a binary at `path` can be read at all: it has an absolute path, and
/// it was not deleted while it was in use.
pub open spec fn loadable(path: Seq<char>) -> bool {
    &&& path.len() > 0
    &&& path[0] == '/'
    &&& !"(deleted)"@.is_suffix_of(path)
}

/// Whether the binary at `path` is worth reading.
pub fn is_loadable(path: &str) -> (r: bool)
    ensures
        r == loadable(path@),
{
    let chars = chars_of(path);
    let n: usize = chars.len();
    if n == 0 || chars[0] != '/' {
        return false;
    }
    let tail = chars_of("(deleted)");
    let m: usize = tail.len();
    if n < m {
        return true;
    }
    let mut i: usize = 0;
    while i < m
        invariant
            i <= m <= n,
            n == chars.len(),
            m == tail.len(),
            tail@ == "(deleted)"@,
            chars@ == path@,
            n > 0,
            chars@[0] == '/',
            forall|j: int| 0 <= j < i ==> tail@[j] == chars@[n - m + j],
        decreases m - i,
    {
        if tail[i] != chars[n - m + i] {
            assert(tail@[i as int] != chars@.subrange(n - m, n as int)[i as int]);
            return true;
        }
        i = i + 1;
    }
    assert(tail@ =~= chars@.subrange(n - m, n as int));
    false
}

impl Module {
    /// Parses an ELF file, returning `None` if that is not what it is.
    pub fn parse(data: &[u8]) -> (r: Option<Module>)
        ensures
            module_of(
                data@,
                match r {
                    Some(m) => Some(m@),
                    None => None,
                },
            ),
            r matches Some(m) ==> by_address(m@.funcs),
    {
        if data.len() < 4 || data[0] != 0x7f || data[1] != 0x45 || data[2] != 0x4c || data[3]
            != 0x46 {
            return None;
        }
        let segments = object_segments(data);
        let symbols = object_symbols(data);
        let dynamic = object_dynamic_symbols(data);
        match (segments, symbols, dynamic) {
            (Some(segments), Some(symbols), Some(dynamic)) => {
                let mut funcs: Vec<FuncSym> = Vec::new();
                assert(views(funcs@) =~= func_list(Seq::empty()));
                push_funcs(&mut funcs, &symbols, Ghost(Seq::empty()));
                assert(Seq::<RawView>::empty() + views(symbols@) =~= views(symbols@));
                push_funcs(&mut funcs, &dynamic, Ghost(views(symbols@)));
                let loads = collect_loads(&segments);
                Some(Module { funcs: sort_funcs(&funcs), loads: sort_loads(&loads) })
            },
            _ => None,
        }
    }
}

/// Where the first blank of `s` stands, or its length.
pub open spec fn first_white(s: Seq<char>) -> int
    decreases s.len(),
{
    if s.len() == 0 || is_white(s[0]) {
        0
    } else {
        1 + first_white(s.skip(1))
    }
}

proof fn lemma_first_white(s: Seq<char>)
    ensures
        0 <= first_white(s) <= s.len(),
    decreases s.len(),
{
    if s.len() > 0 && !is_white(s[0]) {
        lemma_first_white(s.skip(1));
    }
}

/// The first `count` pieces of `s` between blanks, the last of them with all
/// that is left; empty pieces do not appear.
pub open spec fn fields(s: Seq<char>, count: nat) -> Seq<Seq<char>>
    decreases count,
{
    let end = first_white(s);
    if count <= 1 || end >= s.len() {
        if s.len() > 0 {
            seq![s]
        } else {
            Seq::empty()
        }
    } else if end > 0 {
        seq![s.take(end)] + fields(s.skip(end + 1), (count - 1) as nat)
    } else {
        fields(s.skip(1), (count - 1) as nat)
    }
}

fn find_white(s: &[char], from: usize) -> (r: usize)
    requires
        from <= s.len(),
    ensures
        from <= r <= s.len(),
        r == from + first_white(s@.skip(from as int)),
{
    let mut i: usize = from;
    while i < s.len() && !white(s[i])
        invariant
            from <= i <= s.len(),
            first_white(s@.skip(from as int)) == i - from + first_white(s@.skip(i as int)),
        decreases s.len() - i,
    {
        assert(s@.skip(i as int)[0] == s@[i as int]);
        assert(s@.skip(i as int).skip(1) =~= s@.skip(i + 1));
        i = i + 1;
    }
    proof {
        if i < s.len() {
            assert(s@.skip(i as int)[0] == s@[i as int]);
        }
    }
    i
}

fn split_fields<'a>(s: &'a [char], count: usize) -> (r: Vec<&'a [char]>)
    requires
        count > 0,
    ensures
        pieces(r@) == fields(s@, count as nat),
{
    let mut out: Vec<&'a [char]> = Vec::new();
    let mut pos: usize = 0;
    let mut left: usize = count;
    let mut open: bool = true;
    assert(s@.skip(0) =~= s@);
    assert(pieces(out@) + fields(s@, count as nat) =~= fields(s@, count as nat));
    while open
        invariant
            pos <= s.len(),
            open ==> left > 0,
            open ==> fields(s@, count as nat) == pieces(out@) + fields(
                s@.skip(pos as int),
                left as nat,
            ),
            !open ==> fields(s@, count as nat) == pieces(out@),
        decreases (if open { 1int } else { 0int }), left,
    {
        let ghost rest = s@.skip(pos as int);
        let ghost before = pieces(out@);
        let end: usize = find_white(s, pos);
        proof {
            lemma_first_white(rest);
        }
        if left <= 1 || end >= s.len() {
            if pos < s.len() {
                out.push(slice_subrange(s, pos, s.len()));
                assert(s@.subrange(pos as int, s.len() as int) =~= rest);
                assert(pieces(out@) =~= before + fields(rest, left as nat));
            } else {
                assert(pieces(out@) =~= before + fields(rest, left as nat));
            }
            open = false;
        } else {
            assert(rest.skip(end - pos + 1) =~= s@.skip(end + 1));
            if end > pos {
                out.push(slice_subrange(s, pos, end));
                assert(s@.subrange(pos as int, end as int) =~= rest.take(end - pos));
                assert(before + fields(rest, left as nat) =~= pieces(out@) + fields(
                    s@.skip(end + 1),
                    (left - 1) as nat,
                ));
            }
            pos = end + 1;
            left = left - 1;
        }
    }
    out
}

/// The region that one line of a memory map stands for: `start-end perms offset
/// dev inode pathname`, where it is executable and backed by a file with an
/// absolute path.
pub open spec fn map_line(line: Seq<char>) -> Option<MapView> {
    let parts = fields(line, 6);
    if parts.len() < 6 {
        None
    } else {
        let path = trim(parts[5]);
        let dash = first_of(parts[0], '-');
        if !parts[1].contains('x') || path.len() == 0 || path[0] != '/' || dash >= parts[0].len() {
            None
        } else {
            match (
                read_unsigned(parts[0].take(dash), true, u64::MAX as nat),
                read_unsigned(parts[0].skip(dash + 1), true, u64::MAX as nat),
                read_unsigned(parts[2], true, u64::MAX as nat),
            ) {
                (Some(start), Some(end), Some(offset)) => Some(
                    MapView {
                        start: start as u64,
                        end: end as u64,
                        file_offset: offset as u64,
                        path,
                    },
                ),
                _ => None,
            }
        }
    }
}

fn has_char(s: &[char], c: char) -> (r: bool)
    ensures
        r == s@.contains(c),
{
    let mut i: usize = 0;
    while i < s.len()
        invariant
            i <= s.len(),
            forall|j: int| 0 <= j < i ==> s@[j] != c,
        decreases s.len() - i,
    {
        if s[i] == c {
            return true;
        }
        i = i + 1;
    }
    false
}

fn read_map_line(line: &[char]) -> (r: Option<MapEntry>)
    ensures
        match r {
            Some(entry) => map_line(line@) == Some(entry@),
            None => map_line(line@) is None,
        },
{
    let parts = split_fields(line, 6);
    let ghost list = fields(line@, 6);
    assert(parts@.len() == list.len());
    if parts.len() < 6 {
        return None;
    }
    assert(list[0] == parts@[0]@);
    assert(list[1] == parts@[1]@);
    assert(list[2] == parts@[2]@);
    assert(list[5] == parts@[5]@);
    let path = trimmed(parts[5]);
    if !has_char(parts[1], 'x') || path.len() == 0 || path[0] != '/' {
        return None;
    }
    let range = parts[0];
    let dash: usize = find(range, 0, '-');
    assert(range@.skip(0) =~= range@);
    proof {
        lemma_first_of(range@, '-');
    }
    if dash >= range.len() {
        return None;
    }
    assert(range@.subrange(0, dash as int) =~= range@.take(dash as int));
    assert(range@.subrange(dash + 1, range.len() as int) =~= range@.skip(dash + 1));
    let start = parse_unsigned(slice_subrange(range, 0, dash), true, 0xffff_ffff_ffff_ffff);
    let end = parse_unsigned(slice_subrange(range, dash + 1, range.len()), true, 0xffff_ffff_ffff_ffff);
    let offset = parse_unsigned(parts[2], true, 0xffff_ffff_ffff_ffff);
    match (start, end, offset) {
        (Some(start), Some(end), Some(file_offset)) => Some(
            MapEntry { start, end, file_offset, path: string_of(path) },
        ),
        _ => None,
    }
}

/// Parses one line of a memory map, keeping only executable regions backed by
/// an absolute file path.
pub fn parse_map_line(line: &str) -> (r: Option<MapEntry>)
    ensures
        match r {
            Some(entry) => map_line(line@) == Some(entry@),
            None => map_line(line@) is None,
        },
{
    let chars = chars_of(line);
    read_map_line(chars.as_slice())
}

/// The regions in the lines of a memory map.
pub open spec fn map_lines(all: Seq<Seq<char>>) -> Seq<MapView>
    decreases all.len(),
{
    if all.len() == 0 {
        Seq::empty()
    } else {
        let rest = map_lines(all.drop_last());
        match map_line(all.last()) {
            Some(entry) => rest.push(entry),
            None => rest,
        }
    }
}

/// Parses the executable, file-backed regions out of the text of a memory map.
pub fn parse_maps(text: &str) -> (r: Vec<MapEntry>)
    ensures
        views(r@) == map_lines(lines(text@)),
{
    let chars = chars_of(text);
    let all = split_lines(chars.as_slice());
    let ghost list = lines(text@);
    let mut out: Vec<MapEntry> = Vec::new();
    let mut i: usize = 0;
    assert(list.take(0) =~= Seq::empty());
    assert(views(out@) =~= Seq::empty());
    while i < all.len()
        invariant
            i <= all.len(),
            pieces(all@) == list,
            views(out@) == map_lines(list.take(i as int)),
        decreases all.len() - i,
    {
        let ghost known = views(out@);
        assert(list.take(i + 1).drop_last() =~= list.take(i as int));
        assert(list.take(i + 1).last() == all@[i as int]@);
        if let Some(entry) = read_map_line(all[i]) {
            out.push(entry);
            assert(views(out@) =~= known.push(entry@));
        }
        i = i + 1;
    }
    assert(list.take(i as int) =~= list);
    out
}

/// The final component of a path, or the whole of it if it has only one.
pub open spec fn base_name(path: Seq<char>) -> Seq<char> {
    path.skip(last_of(path, '/') + 1)
}

/// The final path component of `path`, or the whole string if it has none.
pub fn basename(path: &str) -> (r: String)
    ensures
        r@ == base_name(path@),
{
    let chars = chars_of(path);
    let s = chars.as_slice();
    let start: usize = match find_last(s, '/') {
        Some(i) => i + 1,
        None => 0,
    };
    assert(s@.subrange(start as int, s.len() as int) =~= base_name(path@));
    string_of(slice_subrange(s, start, s.len()))
}

/// The first region that an address lies in.
pub open spec fn region_at(maps: Seq<MapView>, ip: u64) -> Option<MapView>
    decreases maps.len(),
{
    if maps.len() == 0 {
        None
    } else if maps[0].start <= ip < maps[0].end {
        Some(maps[0])
    } else {
        region_at(maps.skip(1), ip)
    }
}

/// A binary that was looked at: its path, and what it holds if it could be
/// read.
pub struct Loaded {
    pub path: String,
    pub module: Option<Module>,
}

/// What a [`Loaded`] says.
pub struct LoadedView {
    pub path: Seq<char>,
    pub module: Option<ModuleView>,
}

impl View for Loaded {
    type V = LoadedView;

    open spec fn view(&self) -> LoadedView {
        LoadedView {
            path: self.path@,
            module: match self.module {
                Some(m) => Some(m@),
                None => None,
            },
        }
    }
}

/// What the first binary with a given path holds.
pub open spec fn module_at(modules: Seq<LoadedView>, path: Seq<char>) -> Option<ModuleView>
    decreases modules.len(),
{
    if modules.len() == 0 {
        None
    } else if modules[0].path == path {
        modules[0].module
    } else {
        module_at(modules.skip(1), path)
    }
}

/// The text of an address.
pub open spec fn address_text(ip: u64) -> Seq<char> {
    "0x"@ + hexadecimal(ip as nat)
}

/// The name of the function at an address of a region.
pub open spec fn function_in(region: MapView, modules: Seq<LoadedView>, ip: u64) -> Option<Seq<char>> {
    let offset = ip - region.start + region.file_offset;
    match module_at(modules, region.path) {
        Some(m) => if offset <= u64::MAX {
            m.function(offset as u64)
        } else {
            None
        },
        None => None,
    }
}

/// The frame for an address: its function where one is known, and the module
/// that it lies in.
pub open spec fn frame_at(maps: Seq<MapView>, modules: Seq<LoadedView>, ip: u64) -> FrameView {
    match region_at(maps, ip) {
        None => FrameView { raw: address_text(ip), address: Some(ip), ..FrameView::unknown() },
        Some(region) => {
            let function = function_in(region, modules, ip);
            FrameView {
                raw: match function {
                    Some(name) => name,
                    None => address_text(ip),
                },
                function,
                module: Some(base_name(region.path)),
                address: Some(ip),
                ..FrameView::unknown()
            }
        },
    }
}

fn write_address(ip: u64) -> (r: String)
    ensures
        r@ == address_text(ip),
{
    let mut out: String = "0x".to_owned();
    push_hexadecimal(&mut out, ip);
    out
}

/// The paths of the binaries that addresses lie in and that can be read.
pub open spec fn hit_paths(maps: Seq<MapView>, addresses: Seq<u64>) -> Seq<Seq<char>>
    decreases addresses.len(),
{
    if addresses.len() == 0 {
        Seq::empty()
    } else {
        let rest = hit_paths(maps, addresses.drop_last());
        match region_at(maps, addresses.last()) {
            Some(region) => if loadable(region.path) {
                rest.push(region.path)
            } else {
                rest
            },
            None => rest,
        }
    }
}

/// Resolves instruction pointers for a single profiled process, keeping parsed
/// binaries so that each is read at most once.
pub struct Symbolizer {
    maps: Vec<MapEntry>,
    modules: Vec<Loaded>,
}

impl Symbolizer {
    /// The regions of the process.
    pub closed spec fn regions(&self) -> Seq<MapView> {
        views(self.maps@)
    }

    /// The binaries that were looked at.
    pub closed spec fn binaries(&self) -> Seq<LoadedView> {
        views(self.modules@)
    }

    /// Whether the symbols of all binaries are sorted.
    #[verifier::type_invariant]
    closed spec fn wf(&self) -> bool {
        forall|i: int|
            0 <= i < self.modules.len() ==> ((#[trigger] self.modules@[i]).module matches Some(m)
                ==> by_address(m@.funcs))
    }

    /// Builds a symbolizer from the text of a process's memory map.
    #[must_use]
    pub fn new(maps: &str) -> (r: Self)
        ensures
            r.regions() == map_lines(lines(maps@)),
            r.binaries() == Seq::<LoadedView>::empty(),
    {
        let r = Symbolizer { maps: parse_maps(maps), modules: Vec::new() };
        assert(r.binaries() =~= Seq::empty());
        r
    }

    /// Takes note of what the binary at `path` holds; `None` if it could not be
    /// read or parsed.
    pub fn supply(self, path: String, module: Option<Module>) -> (r: Self)
        requires
            module matches Some(m) ==> by_address(m@.funcs),
        ensures
            r.regions() == self.regions(),
            r.binaries() == self.binaries().push(
                LoadedView {
                    path: path@,
                    module: match module {
                        Some(m) => Some(m@),
                        None => None,
                    },
                },
            ),
    {
        proof {
            use_type_invariant(&self);
        }
        let ghost before = self.binaries();
        let ghost old_modules = self.modules@;
        let maps = self.maps;
        let mut modules = self.modules;
        modules.push(Loaded { path, module });
        let r = Symbolizer { maps, modules };
        assert(r.binaries() =~= before.push(
            LoadedView {
                path: path@,
                module: match module {
                    Some(m) => Some(m@),
                    None => None,
                },
            },
        ));
        r
    }

    fn region(&self, ip: u64) -> (r: Option<&MapEntry>)
        ensures
            match r {
                Some(entry) => region_at(self.regions(), ip) == Some(entry@),
                None => region_at(self.regions(), ip) is None,
            },
    {
        let ghost all = self.regions();
        let mut i: usize = 0;
        assert(all.skip(0) =~= all);
        while i < self.maps.len()
            invariant
                i <= self.maps.len(),
                all == views(self.maps@),
                region_at(all, ip) == region_at(all.skip(i as int), ip),
            decreases self.maps.len() - i,
        {
            assert(all.skip(i as int)[0] == self.maps@[i as int]@);
            assert(all.skip(i as int).skip(1) =~= all.skip(i + 1));
            let m = &self.maps[i];
            if ip >= m.start && ip < m.end {
                return Some(m);
            }
            i = i + 1;
        }
        None
    }

    /// The paths of the binaries that have to be read to resolve `addresses`,
    /// each once.
    pub fn wanted(&self, addresses: &Vec<u64>) -> (r: Vec<String>)
        ensures
            views(r@) == grown_all(Seq::empty(), hit_paths(self.regions(), addresses@)),
    {
        let mut out: Vec<String> = Vec::new();
        let mut i: usize = 0;
        assert(addresses@.take(0) =~= Seq::empty());
        assert(views(out@) =~= Seq::empty());
        while i < addresses.len()
            invariant
                i <= addresses.len(),
                views(out@) == grown_all(
                    Seq::empty(),
                    hit_paths(self.regions(), addresses@.take(i as int)),
                ),
            decreases addresses.len() - i,
        {
            let ghost known = views(out@);
            let ghost next = addresses@.take(i + 1);
            assert(next.drop_last() =~= addresses@.take(i as int));
            assert(next.last() == addresses@[i as int]);
            if let Some(entry) = self.region(addresses[i]) {
                if is_loadable(entry.path.as_str()) {
                    let ghost hits = hit_paths(self.regions(), next);
                    assert(hits.drop_last() =~= hit_paths(
                        self.regions(),
                        addresses@.take(i as int),
                    ));
                    assert(hits.last() == entry.path@);
                    if !has_path(&out, &entry.path) {
                        out.push(entry.path.clone());
                        assert(views(out@) =~= known.push(entry.path@));
                    }
                    assert(views(out@) == grown(known, entry.path@));
                }
            }
            i = i + 1;
        }
        assert(addresses@.take(i as int) =~= addresses@);
        out
    }

    /// Turns a raw instruction pointer into a [`Frame`], resolving the function
    /// name and owning module where possible.
    pub fn resolve(&self, ip: u64) -> (r: Frame)
        ensures
            r@ == frame_at(self.regions(), self.binaries(), ip),
    {
        proof {
            use_type_invariant(self);
        }
        let entry = match self.region(ip) {
            Some(entry) => entry,
            None => {
                return Frame {
                    raw: write_address(ip),
                    function: None,
                    file: None,
                    line: None,
                    module: None,
                    address: Some(ip),
                };
            },
        };
        proof {
            lemma_region(self.regions(), ip);
        }
        let function: Option<String> = match (ip - entry.start).checked_add(entry.file_offset) {
            Some(offset) => self.function_of(entry.path.as_str(), offset),
            None => None,
        };
        let raw = match &function {
            Some(name) => name.clone(),
            None => write_address(ip),
        };
        Frame {
            raw,
            function,
            file: None,
            line: None,
            module: Some(basename(entry.path.as_str())),
            address: Some(ip),
        }
    }

    fn function_of(&self, path: &str, offset: u64) -> (r: Option<String>)
        ensures
            opt_text(r) == (match module_at(self.binaries(), path@) {
                Some(m) => m.function(offset),
                None => None,
            }),
    {
        proof {
            use_type_invariant(self);
        }
        let ghost all = self.binaries();
        let mut i: usize = 0;
        assert(all.skip(0) =~= all);
        while i < self.modules.len()
            invariant
                i <= self.modules.len(),
                self.wf(),
                all == views(self.modules@),
                module_at(all, path@) == module_at(all.skip(i as int), path@),
            decreases self.modules.len() - i,
        {
            assert(all.skip(i as int)[0] == self.modules@[i as int]@);
            assert(all.skip(i as int).skip(1) =~= all.skip(i + 1));
            if crate::text::same_text(self.modules[i].path.as_str(), path) {
                return match &self.modules[i].module {
                    Some(m) => m.function_at(offset),
                    None => None,
                };
            }
            i = i + 1;
        }
        None
    }
}

proof fn lemma_region(maps: Seq<MapView>, ip: u64)
    ensures
        region_at(maps, ip) matches Some(region) ==> region.start <= ip < region.end,
    decreases maps.len(),
{
    if maps.len() > 0 {
        lemma_region(maps.skip(1), ip);
    }
}

fn has_path(paths: &Vec<String>, path: &String) -> (r: bool)
    ensures
        r == views(paths@).contains(path@),
{
    let ghost all = views(paths@);
    let mut i: usize = 0;
    while i < paths.len()
        invariant
            i <= paths.len(),
            all == views(paths@),
            forall|j: int| 0 <= j < i ==> all[j] != path@,
        decreases paths.len() - i,
    {
        assert(all[i as int] == paths@[i as int]@);
        if paths[i] == *path {
            return true;
        }
        i = i + 1;
    }
    false
}

/// Whatever is known of a process, every address has a frame: it keeps the
/// address, it is labelled by the function or by the address itself, and it
/// names a module exactly where the address lies in a known region.
pub proof fn law_every_address_has_a_frame(maps: Seq<MapView>, modules: Seq<LoadedView>, ip: u64)
    ensures
        ({
            let frame = frame_at(maps, modules, ip);
            &&& frame.address == Some(ip)
            &&& frame.raw == (match frame.function {
                Some(name) => name,
                None => address_text(ip),
            })
            &&& frame.module is Some <==> region_at(maps, ip) is Some
            &&& frame.function is Some ==> frame.module is Some
            &&& frame.file is None && frame.line is None
        }),
{
}

} // verus!
