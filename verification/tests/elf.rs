use on9log::elf_resolv::{
    source_location, MachSection, MachSymbol, RawSymbol, Section, SectionHeader, Symbol, N_SECT,
    SHT_NOBITS, STT_FUNC,
};
use on9log::load_commands::entry_point_fits;
use on9log::{ElfStrings, ResolvedSymbol, SourceLocation};

#[test]
fn missing_file_is_error() {
    assert!(ElfStrings::from_bytes(&[]).is_err());
}

fn section(name: &str, addr: u32, end: u32, data: &[u8]) -> Section {
    Section {
        name: name.to_string(),
        addr,
        end,
        data: data.to_vec(),
    }
}

fn symbol(name: &str, addr: u32, size: u32) -> Symbol {
    Symbol {
        name: name.to_string(),
        addr,
        size,
    }
}

#[test]
fn format_lookup_uses_noload_section_at_vma_zero() {
    let strings = ElfStrings::from_tables(
        vec![
            section(".rodata", 0x3f00_0000, 0x3f00_0010, b"TAG\0"),
            section(".noload", 0, 16, &[0, 0, 0, 0, b'f', b'm', b't', b'\0']),
        ],
        Vec::new(),
    );

    assert_eq!(strings.read_format(4), Some("fmt"));
    assert_eq!(strings.read_tag(0x3f00_0000), Some("TAG"));
    assert_eq!(strings.read_tag(4), None);
}

#[test]
fn format_lookup_falls_back_to_rodata_for_cpp_wrapper() {
    let mut strings = ElfStrings::from_tables(
        vec![section(
            ".rodata",
            0x3f00_0000,
            0x3f00_0020,
            b"value={}\0TAG\0",
        )],
        Vec::new(),
    );

    assert_eq!(strings.read_format(0x3f00_0000), Some("value={}"));
    assert_eq!(strings.read_tag(0x3f00_0009), Some("TAG"));

    strings.set_address_slide(0x0100_0000);
    assert_eq!(strings.read_format(0x4000_0000), Some("value={}"));
    assert_eq!(strings.read_tag(0x4000_0009), Some("TAG"));
}

#[test]
fn ambiguous_lookup_with_different_strings_fails() {
    let strings = ElfStrings::from_tables(
        vec![
            section(".noload", 0, 8, b"\0\0\0\0a\0"),
            section(".noload.extra", 4, 8, b"b\0"),
        ],
        Vec::new(),
    );

    assert_eq!(strings.read_format(4), None);
}

#[test]
fn symbol_lookup_uses_containing_function() {
    let strings = ElfStrings::from_tables(
        Vec::new(),
        vec![symbol("first", 0x1000, 0x20), symbol("second", 0x1040, 0)],
    );

    assert_eq!(
        strings.resolve_symbol(0x1014),
        Some(ResolvedSymbol {
            name: "first",
            address: 0x1000,
            offset: 0x14,
        })
    );
    assert_eq!(strings.resolve_symbol(0x1030), None);
    assert_eq!(strings.resolve_symbol(0x1044).unwrap().name, "second");
}

#[test]
fn agreeing_sections_are_not_ambiguous() {
    let strings = ElfStrings::from_tables(
        vec![section("a", 0, 8, b"xyz\0"), section("b", 1, 8, b"yz\0")],
        Vec::new(),
    );
    assert_eq!(strings.read_cstr(1), Some("yz"));
    assert_eq!(strings.read_cstr(0), Some("xyz"));
}

#[test]
fn unreadable_strings_are_not_found() {
    let strings = ElfStrings::from_tables(
        vec![
            section("a", 0x100, 0x110, b"\0ab"),
            section("b", 0x200, 0x210, &[0xff, 0]),
            section("c", 0x300, 0x310, b"tail"),
        ],
        Vec::new(),
    );
    // An empty string, one past the end of the data, and one that is no text.
    assert_eq!(strings.read_cstr(0x100), None);
    assert_eq!(strings.read_cstr(0x103), None);
    assert_eq!(strings.read_cstr(0x10f), None);
    assert_eq!(strings.read_cstr(0x200), None);
    assert_eq!(strings.read_cstr(0x110), None);
    // A string that ends with the data.
    assert_eq!(strings.read_cstr(0x301), Some("ail"));
}

#[test]
fn slide_wraps_around() {
    let mut strings =
        ElfStrings::from_tables(vec![section("a", 0xffff_fff0, 0xffff_ffff, b"wrap\0")], vec![]);
    strings.set_address_slide(0x20);
    assert_eq!(strings.read_cstr(0x10), Some("wrap"));
    assert_eq!(strings.location_address(0x10), 0xffff_fff0);
}

#[test]
fn symbols_are_sorted_and_larger_ones_come_first() {
    let strings = ElfStrings::from_tables(
        vec![],
        vec![
            symbol("late", 0x3000, 4),
            symbol("small", 0x1000, 4),
            symbol("large", 0x1000, 0x100),
            symbol("unsized", 0x2000, 0),
        ],
    );
    // The last symbol that contains the address wins.
    assert_eq!(strings.resolve_symbol(0x1002).unwrap().name, "small");
    assert_eq!(strings.resolve_symbol(0x1010).unwrap().name, "large");
    // A symbol of unknown size reaches up to the next one.
    assert_eq!(strings.resolve_symbol(0x2fff).unwrap().offset, 0xfff);
    assert_eq!(strings.resolve_symbol(0x3004), None);
    assert_eq!(strings.resolve_symbol(0xfff), None);
}

#[test]
fn equal_symbols_keep_their_order() {
    let tie = |first: &str, second: &str| {
        let table = vec![symbol(first, 0x1000, 4), symbol(second, 0x1000, 4)];
        let strings = ElfStrings::from_tables(vec![], table);
        strings.resolve_symbol(0x1001).unwrap().name.to_string()
    };
    assert_eq!(tie("a", "b"), "b");
    assert_eq!(tie("b", "a"), "a");
}

#[test]
fn lookups_ignore_the_order_of_sections() {
    let a = || section(".a", 0x10, 0x18, b"one\0two\0");
    let b = || section(".b", 0x14, 0x18, b"two\0");
    let c = || section(".c", 0x10, 0x14, b"six\0");
    for list in [vec![a(), b(), c()], vec![c(), b(), a()], vec![b(), c(), a()]] {
        let strings = ElfStrings::from_tables(list, vec![]);
        assert_eq!(strings.read_cstr(0x14), Some("two"));
        assert_eq!(strings.read_cstr(0x10), None);
    }
}

#[test]
fn elf_tables_are_filtered() {
    let file: Vec<u8> = b"....text\0data".to_vec();
    let head = |name: &str, kind: u32, addr: u64, offset: u64, size: u64| SectionHeader {
        name: Some(name.to_string()),
        kind,
        addr,
        offset,
        size,
    };
    let headers = vec![
        head(".rodata", 1, 0x100, 4, 5),
        head(".bss", SHT_NOBITS, 0x200, 4, 5),
        head(".comment", 1, 0, 4, 5),
        head(".noload_keep", 1, 0, 4, 5),
        head(".outside", 1, 0x300, 9, 5),
        head(".empty", 1, 0x400, 4, 0),
        head(".wide", 1, 0x1_0000_0000, 9, 4),
        head(".wider", 1, 0x5_0000_0600, 9, 4),
    ];
    let raw = |name: &str, value: u64, size: u64, kind: u8| RawSymbol {
        name: Some(name.to_string()),
        value,
        size,
        kind,
    };
    let symbols = vec![
        raw("main", 0x10, 8, STT_FUNC),
        raw("object", 0x20, 8, 1),
        raw("", 0x30, 8, STT_FUNC),
        raw("zero", 0, 8, STT_FUNC),
        raw("wide", 0x1_0000_0000, 8, STT_FUNC),
        RawSymbol {
            name: None,
            value: 0x40,
            size: 8,
            kind: STT_FUNC,
        },
    ];
    let dynamic = vec![raw("main", 0x10, 99, STT_FUNC), raw("alias", 0x50, 8, STT_FUNC)];
    let strings = ElfStrings::from_elf(&file, &headers, &symbols, &dynamic);
    assert_eq!(strings.read_tag(0x100), Some("text"));
    assert_eq!(strings.read_cstr(0x200), None);
    assert_eq!(strings.read_format(0), Some("text"));
    assert_eq!(strings.read_cstr(0x300), None);
    // A section above 32 bits is at no address, whatever its low bits are.
    assert_eq!(strings.read_tag(0), None);
    assert_eq!(strings.read_cstr(0x600), None);
    assert_eq!(strings.resolve_symbol(0x17).unwrap().name, "main");
    assert_eq!(strings.resolve_symbol(0x18), None);
    assert_eq!(strings.resolve_symbol(0x22), None);
    assert_eq!(strings.resolve_symbol(0x42), None);
    assert_eq!(strings.resolve_symbol(0x57).unwrap().name, "alias");
}

#[test]
fn mach_tables_are_filtered() {
    let sect = |name: &str, addr: u64, data: &[u8]| MachSection {
        segment: Some("__TEXT".to_string()),
        name: Some(name.to_string()),
        addr,
        data: data.to_vec(),
    };
    let sym = |name: &str, value: u64, stab: bool, kind: u8| MachSymbol {
        name: name.to_string(),
        value,
        stab,
        kind,
    };
    let sections = vec![
        sect("__cstring", 0x1_0000_1000, b"tag\0"),
        sect("__bss", 0x2000, b""),
    ];
    let symbols = vec![
        sym("_main", 0x1_0000_0010, false, N_SECT),
        sym("_main", 0x1_0000_0010, false, N_SECT),
        sym("_stab", 0x1_0000_0020, true, N_SECT),
        sym("_undefined", 0x1_0000_0020, false, 0),
        sym("", 0x1_0000_0020, false, N_SECT),
        sym("_next", 0x1_0000_0040, false, N_SECT),
    ];
    let strings = ElfStrings::from_mach(Ok(sections), &symbols).ok().unwrap();
    // Addresses are reduced to their low 32 bits.
    assert_eq!(strings.read_tag(0x1000), Some("tag"));
    assert_eq!(strings.resolve_symbol(0x3f).unwrap().name, "_main");
    assert_eq!(strings.resolve_symbol(0x40).unwrap().name, "_next");

    let broken = Err("short read".to_string());
    assert_eq!(
        ElfStrings::from_mach(broken, &symbols).err(),
        Some("Mach-O section parse: short read".to_string())
    );
}

/// A 64-bit little-endian ELF file with one section of each needed kind.
fn small_elf() -> Vec<u8> {
    let text = b"fmt %d\0";
    let names = b"\0.noload\0.shstrtab\0.symtab\0.strtab\0";
    let strings = b"\0app_main\0";
    let mut f: Vec<u8> = vec![0x7f, b'E', b'L', b'F', 2, 1, 1, 0, 0, 0, 0, 0, 0, 0, 0, 0];
    f.extend_from_slice(&2u16.to_le_bytes()); // type
    f.extend_from_slice(&62u16.to_le_bytes()); // machine
    f.extend_from_slice(&1u32.to_le_bytes()); // version
    f.extend_from_slice(&0u64.to_le_bytes()); // entry
    f.extend_from_slice(&0u64.to_le_bytes()); // program headers
    let text_at = 64u64;
    let names_at = text_at + text.len() as u64;
    let strings_at = names_at + names.len() as u64;
    let symbols_at = strings_at + strings.len() as u64;
    let headers_at = symbols_at + 48;
    f.extend_from_slice(&headers_at.to_le_bytes());
    f.extend_from_slice(&0u32.to_le_bytes()); // flags
    f.extend_from_slice(&64u16.to_le_bytes()); // header size
    f.extend_from_slice(&0u16.to_le_bytes());
    f.extend_from_slice(&0u16.to_le_bytes());
    f.extend_from_slice(&64u16.to_le_bytes()); // section header size
    f.extend_from_slice(&5u16.to_le_bytes()); // section headers
    f.extend_from_slice(&2u16.to_le_bytes()); // index of the name table
    f.extend_from_slice(text);
    f.extend_from_slice(names);
    f.extend_from_slice(strings);
    f.extend_from_slice(&[0u8; 24]);
    f.extend_from_slice(&1u32.to_le_bytes()); // name
    f.push(0x12); // global function
    f.push(0);
    f.extend_from_slice(&1u16.to_le_bytes());
    f.extend_from_slice(&0x4000u64.to_le_bytes());
    f.extend_from_slice(&0x10u64.to_le_bytes());
    assert_eq!(f.len() as u64, headers_at);
    let mut head = |name: u32, kind: u32, addr: u64, offset: u64, size: u64, link: u32, ent: u64| {
        f.extend_from_slice(&name.to_le_bytes());
        f.extend_from_slice(&kind.to_le_bytes());
        f.extend_from_slice(&0u64.to_le_bytes());
        f.extend_from_slice(&addr.to_le_bytes());
        f.extend_from_slice(&offset.to_le_bytes());
        f.extend_from_slice(&size.to_le_bytes());
        f.extend_from_slice(&link.to_le_bytes());
        f.extend_from_slice(&0u32.to_le_bytes());
        f.extend_from_slice(&1u64.to_le_bytes());
        f.extend_from_slice(&ent.to_le_bytes());
    };
    head(0, 0, 0, 0, 0, 0, 0);
    head(1, 1, 0, text_at, text.len() as u64, 0, 0);
    head(9, 3, 0, names_at, names.len() as u64, 0, 0);
    head(19, 2, 0, symbols_at, 48, 4, 24);
    head(27, 3, 0, strings_at, strings.len() as u64, 0, 0);
    f
}

#[test]
fn reads_an_elf_file() {
    let strings = ElfStrings::from_bytes(&small_elf()).ok().unwrap();
    assert_eq!(strings.read_format(0), Some("fmt %d"));
    assert_eq!(strings.read_format(4), Some("%d"));
    assert_eq!(
        strings.resolve_symbol(0x4008),
        Some(ResolvedSymbol {
            name: "app_main",
            address: 0x4000,
            offset: 8,
        })
    );
}

#[test]
fn other_files_are_refused() {
    let mut text = b"this is no executable at all, just some text".to_vec();
    assert_eq!(
        ElfStrings::from_bytes(&text).err(),
        Some("unsupported executable format; expected ELF or Mach-O".to_string())
    );
    text.truncate(3);
    assert!(ElfStrings::from_bytes(&text)
        .err()
        .unwrap()
        .starts_with("executable parse: "));
    // A well-formed object file of another format.
    let mut coff = vec![0x64, 0x86];
    coff.extend_from_slice(&[0u8; 18]);
    assert_eq!(
        ElfStrings::from_bytes(&coff).err(),
        Some("unsupported executable format; expected ELF or Mach-O".to_string())
    );
}

#[test]
fn malformed_files_of_other_formats_do_not_parse() {
    let parse_error = |start: &[u8], rest: usize| {
        let mut file = start.to_vec();
        file.resize(start.len() + rest, 0);
        let why = ElfStrings::from_bytes(&file).err().unwrap();
        why.starts_with("executable parse: ")
    };
    assert!(parse_error(b"MZ", 62));
    assert!(parse_error(b"VZ", 62));
    assert!(parse_error(b"!<arch>\n", 0));
    assert!(parse_error(b"!<arch>\n", 60));
    // An object file whose one section header is cut off.
    assert!(parse_error(&[0x64, 0x86, 1, 0], 16));
}

#[test]
fn fat_images_are_refused() {
    let mut fat: Vec<u8> = 0xcafe_babeu32.to_be_bytes().to_vec();
    fat.extend_from_slice(&1u32.to_be_bytes());
    fat.extend_from_slice(&[0u8; 56]);
    assert_eq!(
        ElfStrings::from_bytes(&fat).err(),
        Some("fat Mach-O images are not supported; use a thin executable".to_string())
    );
}

/// A 64-bit little-endian Mach-O file with one segment, section and symbol.
fn small_mach() -> Vec<u8> {
    let mut f: Vec<u8> = Vec::new();
    let words = |f: &mut Vec<u8>, list: &[u32]| {
        for w in list {
            f.extend_from_slice(&w.to_le_bytes());
        }
    };
    let name = |f: &mut Vec<u8>, s: &str| {
        let mut n = [0u8; 16];
        n[..s.len()].copy_from_slice(s.as_bytes());
        f.extend_from_slice(&n);
    };
    let commands = 72 + 80 + 24u32;
    let data_at = 32 + commands;
    let symbols_at = data_at + 8;
    let strings_at = symbols_at + 16;
    // Header: magic, cpu, subtype, type, commands, their size, flags, reserved.
    words(&mut f, &[0xfeed_facf, 0x0100_0007, 3, 2, 2, commands, 0, 0]);
    // One segment with one section.
    words(&mut f, &[0x19, 72 + 80]);
    name(&mut f, "__TEXT");
    for v in [0x1_0000_0000u64, 0x1000, 0, symbols_at as u64] {
        f.extend_from_slice(&v.to_le_bytes());
    }
    words(&mut f, &[7, 5, 1, 0]);
    name(&mut f, "__cstring");
    name(&mut f, "__TEXT");
    f.extend_from_slice(&0x1_0000_0100u64.to_le_bytes());
    f.extend_from_slice(&8u64.to_le_bytes());
    words(&mut f, &[data_at, 0, 0, 0, 2, 0, 0, 0]);
    // The symbol table.
    words(&mut f, &[2, 24, symbols_at, 1, strings_at, 8]);
    f.extend_from_slice(b"val={}\0\0");
    words(&mut f, &[1]);
    f.push(0x0f);
    f.push(1);
    f.extend_from_slice(&0u16.to_le_bytes());
    f.extend_from_slice(&0x1_0000_0200u64.to_le_bytes());
    f.extend_from_slice(b"\0_main\0\0");
    f
}

#[test]
fn reads_a_mach_file() {
    let strings = ElfStrings::from_bytes(&small_mach()).ok().unwrap();
    assert_eq!(strings.read_format(0x100), Some("val={}"));
    assert_eq!(strings.resolve_symbol(0x204).unwrap().name, "_main");
}

/// A 64-bit little-endian Mach-O file with an entry point and one segment.
fn mach_with_entry(segment: &[u8; 16], address: u64, place: u64, entry: u64) -> Vec<u8> {
    let commands = 24 + 72u32;
    let mut f: Vec<u8> = Vec::new();
    for w in [0xfeed_facfu32, 0x0100_0007, 3, 2, 2, commands, 0, 0] {
        f.extend_from_slice(&w.to_le_bytes());
    }
    for w in [0x8000_0028u32, 24] {
        f.extend_from_slice(&w.to_le_bytes());
    }
    f.extend_from_slice(&entry.to_le_bytes());
    f.extend_from_slice(&0u64.to_le_bytes());
    for w in [0x19u32, 72] {
        f.extend_from_slice(&w.to_le_bytes());
    }
    f.extend_from_slice(segment);
    for v in [address, 0x1000, place, 0] {
        f.extend_from_slice(&v.to_le_bytes());
    }
    for w in [7u32, 5, 0, 0] {
        f.extend_from_slice(&w.to_le_bytes());
    }
    f
}

#[test]
fn entry_points_out_of_range_are_refused() {
    let text = b"__TEXT\0\0\0\0\0\0\0\0\0\0";
    let data = b"__DATA\0\0\0\0\0\0\0\0\0\0";
    let refused = Some("executable parse: Mach-O entry point is out of range".to_string());
    let open = |f: Vec<u8>| ElfStrings::from_bytes(&f).err();
    // The address is the offset, moved by as much as the segment lies above its place.
    assert_eq!(open(mach_with_entry(text, 0x1_0000_0000, 0, 0x400)), None);
    assert_eq!(open(mach_with_entry(text, 0x60, 0x60, 0x400)), None);
    assert_eq!(open(mach_with_entry(text, 0x5f, 0x60, 0x400)), refused);
    assert_eq!(open(mach_with_entry(text, u64::MAX, 0, 0)), None);
    assert_eq!(open(mach_with_entry(text, u64::MAX, 0, 1)), refused);
    // Without a text segment there is no address to be had.
    let missing = open(mach_with_entry(data, 0x5f, 0x60, 0x400)).unwrap();
    assert!(missing.starts_with("executable parse: "));
    assert!(missing.contains("__TEXT"));
    // Commands that are cut off are left to the parser.
    let mut cut = mach_with_entry(text, 0x5f, 0x60, 0x400);
    cut.truncate(100);
    let why = open(cut).unwrap();
    assert!(why.starts_with("executable parse: "));
    assert!(!why.contains("out of range"));
}

#[test]
fn load_commands_are_read_in_both_byte_orders() {
    // A 32-bit file, most significant byte first.
    let mut f: Vec<u8> = Vec::new();
    for w in [0xfeed_faceu32, 7, 3, 2, 2, 24 + 56, 0, 0x8000_0028, 24, 0, 1, 0, 0, 1, 56] {
        f.extend_from_slice(&w.to_be_bytes());
    }
    f.extend_from_slice(b"__TEXT\0\0\0\0\0\0\0\0\0\0");
    for w in [0x10u32, 0x1000, 0x20, 0, 7, 5, 0, 0] {
        f.extend_from_slice(&w.to_be_bytes());
    }
    assert!(!entry_point_fits(&f));
    // The address is not below the place any more.
    let at = f.len() - 32 + 3;
    f[at] = 0x20;
    assert!(entry_point_fits(&f));
    assert!(ElfStrings::from_bytes(&f).is_ok());
}

#[test]
fn a_section_has_no_strings_outside() {
    let s = section(".rodata", 0x100, 0x200, b"one\0two");
    assert_eq!(s.read_cstr(0x100), Some("one"));
    assert_eq!(s.read_cstr(0x106), Some("o"));
    assert_eq!(s.read_cstr(0x107), None);
    assert_eq!(s.read_cstr(0xff), None);
    assert_eq!(s.read_cstr(0), None);
    assert_eq!(s.read_cstr(u32::MAX), None);
    // The address range does not matter here, only the bytes do.
    let t = section(".rodata", 0x100, 0x100, b"one\0");
    assert_eq!(t.read_cstr(0x101), Some("ne"));
}

#[test]
fn locations_need_a_file() {
    assert_eq!(source_location(None, Some(3)), None);
    assert_eq!(
        source_location(Some("main.c".to_string()), None),
        Some(SourceLocation {
            file: "main.c".to_string(),
            line: None,
        })
    );
}
