//! Memory maps, and resolving addresses against them.

use profcast::symbols::{
    basename, is_loadable, parse_map_line, parse_maps, FuncSym, Load, Module, Symbolizer,
};

#[test]
fn parses_executable_file_backed_line() {
    let line = "5588f0a00000-5588f0a01000 r-xp 00002000 08:01 1311 /usr/bin/cat";
    let entry = parse_map_line(line).expect("should parse");
    assert_eq!(entry.start, 0x5588_f0a0_0000);
    assert_eq!(entry.end, 0x5588_f0a0_1000);
    assert_eq!(entry.file_offset, 0x2000);
    assert_eq!(entry.path, "/usr/bin/cat");
}

#[test]
fn skips_non_executable_and_anonymous() {
    // Non-executable mapping.
    assert!(
        parse_map_line("5588f0a00000-5588f0a01000 rw-p 0 08:01 1311 /usr/bin/cat").is_none()
    );
    // Executable but anonymous / special.
    assert!(parse_map_line("7fff000000-7fff001000 r-xp 0 00:00 0 [vdso]").is_none());
    // Garbage.
    assert!(parse_map_line("not a maps line").is_none());
}

#[test]
fn basename_takes_last_component() {
    assert_eq!(basename("/usr/lib/libc.so.6"), "libc.so.6");
    assert_eq!(basename("bare"), "bare");
}

#[test]
fn file_offset_maps_through_load_segment() {
    let module = Module {
        funcs: vec![
            FuncSym {
                vaddr: 0x1000,
                size: 0x10,
                name: "early".to_owned(),
            },
            FuncSym {
                vaddr: 0x1100,
                size: 0,
                name: "late".to_owned(),
            },
        ],
        loads: vec![Load {
            offset: 0x1000,
            size: 0x1000,
            vaddr: 0x1000,
        }],
    };
    // 0x1108 -> vaddr 0x1108, covered by the size-less "late" symbol.
    assert_eq!(module.function_at(0x1108).as_deref(), Some("late"));
    // Inside "early" (size 0x10).
    assert_eq!(module.function_at(0x1004).as_deref(), Some("early"));
    // Past the end of "early" but before "late": "early"'s size rules it
    // out and nothing else covers the gap.
    assert_eq!(module.function_at(0x1050), None);
    // Offset outside any load segment.
    assert_eq!(module.function_at(0x9000), None);
}

fn put(out: &mut Vec<u8>, bytes: &[u8]) {
    out.extend_from_slice(bytes);
}

fn symbol(name: u32, info: u8, value: u64, size: u64) -> Vec<u8> {
    let mut out = Vec::new();
    put(&mut out, &name.to_le_bytes());
    put(&mut out, &[info, 0]);
    put(&mut out, &1_u16.to_le_bytes());
    put(&mut out, &value.to_le_bytes());
    put(&mut out, &size.to_le_bytes());
    out
}

fn section(kind: u32, offset: u64, size: u64, link: u32, info: u32, entry: u64) -> Vec<u8> {
    let mut out = Vec::new();
    put(&mut out, &0_u32.to_le_bytes());
    put(&mut out, &kind.to_le_bytes());
    put(&mut out, &[0; 16]);
    put(&mut out, &offset.to_le_bytes());
    put(&mut out, &size.to_le_bytes());
    put(&mut out, &link.to_le_bytes());
    put(&mut out, &info.to_le_bytes());
    put(&mut out, &1_u64.to_le_bytes());
    put(&mut out, &entry.to_le_bytes());
    out
}

/// A little executable: one segment that loads file offsets from 0x1000 on at
/// 0x401000, two functions in the wrong order, a variable, a function without
/// an address, and a segment that holds nothing.
fn executable() -> Vec<u8> {
    let names = b"\0late\0early\0data\0\0\0\0\0\0\0\0";
    let mut symbols = vec![0_u8; 24];
    put(&mut symbols, &symbol(1, 0x12, 0x40_1100, 0));
    put(&mut symbols, &symbol(6, 0x12, 0x40_1000, 0x10));
    put(&mut symbols, &symbol(12, 0x11, 0x40_1050, 0x10));
    put(&mut symbols, &symbol(1, 0x12, 0, 0x10));
    let header = 64_u64;
    let programs = header;
    let strings = programs + 2 * 56;
    let table = strings + names.len() as u64;
    let sections = table + symbols.len() as u64;
    let mut out = Vec::new();
    put(&mut out, &[0x7f, b'E', b'L', b'F', 2, 1, 1, 0, 0, 0, 0, 0, 0, 0, 0, 0]);
    put(&mut out, &2_u16.to_le_bytes());
    put(&mut out, &62_u16.to_le_bytes());
    put(&mut out, &1_u32.to_le_bytes());
    put(&mut out, &0_u64.to_le_bytes());
    put(&mut out, &programs.to_le_bytes());
    put(&mut out, &sections.to_le_bytes());
    put(&mut out, &0_u32.to_le_bytes());
    for half in [64_u16, 56, 2, 64, 3, 2] {
        put(&mut out, &half.to_le_bytes());
    }
    for (offset, vaddr, size) in [(0x5000_u64, 0x40_5000_u64, 0_u64), (0x1000, 0x40_1000, 0x1000)] {
        put(&mut out, &1_u32.to_le_bytes());
        put(&mut out, &5_u32.to_le_bytes());
        for word in [offset, vaddr, vaddr, size, size, 0x1000] {
            put(&mut out, &word.to_le_bytes());
        }
    }
    put(&mut out, names);
    put(&mut out, &symbols);
    put(&mut out, &[0; 64]);
    put(&mut out, &section(2, table, symbols.len() as u64, 2, 1, 24));
    put(&mut out, &section(3, strings, names.len() as u64, 0, 0, 0));
    out
}

#[test]
fn object_files_are_parsed_and_sorted() {
    let module = Module::parse(&executable()).unwrap();
    let names: Vec<&str> = module.funcs.iter().map(|f| f.name.as_str()).collect();
    assert_eq!(names, ["early", "late"]);
    assert_eq!(module.loads.len(), 1);
    assert_eq!(module.loads[0].offset, 0x1000);
    assert_eq!(module.loads[0].size, 0x1000);
    assert_eq!(module.loads[0].vaddr, 0x40_1000);
    assert_eq!(module.function_at(0x1004).as_deref(), Some("early"));
    assert_eq!(module.function_at(0x1050), None);
    assert_eq!(module.function_at(0x1f00).as_deref(), Some("late"));
}

#[test]
fn other_files_are_no_modules() {
    assert!(Module::parse(b"not an object file").is_none());
    assert!(Module::parse(b"").is_none());
}

#[test]
fn addresses_resolve_through_map_and_module() {
    let maps = "7000-9000 r-xp 00001000 08:01 1311                 /usr/bin/app\n\
                a000-b000 r-xp 00000000 08:01 1312 /usr/lib/gone.so (deleted)\n\
                c000-d000 rw-p 00000000 08:01 1313 /usr/lib/data.so\n";
    let symbolizer = Symbolizer::new(maps);
    let hits = vec![0x7004, 0xa004, 0xc004, 0x7104];
    assert_eq!(symbolizer.wanted(&hits), vec!["/usr/bin/app".to_owned()]);
    let module = Module::parse(&executable());
    let symbolizer = symbolizer.supply("/usr/bin/app".to_owned(), module);
    let early = symbolizer.resolve(0x7004);
    assert_eq!(early.raw, "early");
    assert_eq!(early.function.as_deref(), Some("early"));
    assert_eq!(early.module.as_deref(), Some("app"));
    assert_eq!(early.address, Some(0x7004));
    let gap = symbolizer.resolve(0x7050);
    assert_eq!(gap.raw, "0x7050");
    assert_eq!(gap.function, None);
    assert_eq!(gap.module.as_deref(), Some("app"));
    let gone = symbolizer.resolve(0xa004);
    assert_eq!(gone.module.as_deref(), Some("gone.so (deleted)"));
    assert_eq!(gone.function, None);
    let nowhere = symbolizer.resolve(0xc004);
    assert_eq!(nowhere.raw, "0xc004");
    assert_eq!(nowhere.module, None);
}

#[test]
fn offsets_past_the_address_space_resolve_to_nothing() {
    let module = Module {
        funcs: vec![],
        loads: vec![Load { offset: 0, size: u64::MAX, vaddr: u64::MAX }],
    };
    assert_eq!(module.file_offset_to_vaddr(0), Some(u64::MAX));
    assert_eq!(module.file_offset_to_vaddr(1), None);
}

#[test]
fn only_readable_binaries_are_loadable() {
    assert!(is_loadable("/bin/sh"));
    assert!(!is_loadable("/bin/sh (deleted)"));
    assert!(!is_loadable("[vdso]"));
    assert!(!is_loadable(""));
    assert!(is_loadable("/d"));
}

#[test]
fn maps_keep_executable_lines_only() {
    let maps = parse_maps("garbage\n1-2 r-xp 0 08:01 1 /a\n3-4 rw-p 0 08:01 1 /b\n");
    assert_eq!(maps.len(), 1);
    assert_eq!(maps[0].path, "/a");
}

#[test]
fn only_elf_files_are_modules() {
    let mut bytes = executable();
    assert!(Module::parse(&bytes).is_some());
    bytes[0] = b'M';
    bytes[1] = b'Z';
    assert!(Module::parse(&bytes).is_none());
    assert!(Module::parse(b"\x7fELF").is_none());
}
