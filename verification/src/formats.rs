use vstd::prelude::*;
use crate::dsl::{FormatDefinition, DslError, format_of, bytes_view, has_cycle, refs_resolved, cycle_message};
use crate::yaml::yaml_document;
use crate::text::{chars_of, chars_eq, to_ascii_lower, ascii_lower_seq, owned};

verus! {

pub const PNG_YAML: &'static str = r#"
name: PNG
magic: [0x89, 0x50, 0x4E, 0x47, 0x0D, 0x0A, 0x1A, 0x0A]
enums:
  - name: ColorType
    values:
      GRAYSCALE: 0
      RGB: 2
      INDEXED: 3
      GRAYSCALE_ALPHA: 4
      RGBA: 6
structs:
  - name: IHDRChunk
    fields:
      - name: length
        type: u32
        offset: "0"
        endian: big
        format: dec
      - name: chunk_type
        type:
          string:
            length: "4"
            encoding: ascii
        offset: relative
      - name: width
        type: u32
        offset: relative
        endian: big
        format: dec
      - name: height
        type: u32
        offset: relative
        endian: big
        format: dec
      - name: bit_depth
        type: u8
        offset: relative
        format: dec
      - name: color_type
        type:
          enum:
            name: ColorType
            underlying: u8
        offset: relative
      - name: compression_method
        type: u8
        offset: relative
        format: dec
      - name: filter_method
        type: u8
        offset: relative
        format: dec
      - name: interlace_method
        type: u8
        offset: relative
        format: dec
      - name: crc
        type: u32
        offset: relative
        endian: big
        format: hex
        checksum:
          algorithm: crc32
          start: "4"
          end: "21"
root:
  name: PNGFile
  fields:
    - name: signature
      type:
        bytes:
          length: "8"
      offset: "0"
      format: hex
    - name: ihdr
      type:
        struct: IHDRChunk
      offset: relative
"#;

pub const BMP_YAML: &'static str = r#"
name: BMP
magic: [0x42, 0x4D]
enums:
  - name: Compression
    values:
      BI_RGB: 0
      BI_RLE8: 1
      BI_RLE4: 2
      BI_BITFIELDS: 3
      BI_JPEG: 4
      BI_PNG: 5
structs:
  - name: BMPFileHeader
    fields:
      - name: signature
        type:
          string:
            length: "2"
            encoding: ascii
        offset: "0"
      - name: file_size
        type: u32
        offset: relative
        format: dec
      - name: reserved1
        type: u16
        offset: relative
        format: hex
      - name: reserved2
        type: u16
        offset: relative
        format: hex
      - name: data_offset
        type: u32
        offset: relative
        format: hex
  - name: DIBHeader
    fields:
      - name: header_size
        type: u32
        offset: "0"
        format: dec
      - name: width
        type: i32
        offset: relative
        format: dec
      - name: height
        type: i32
        offset: relative
        format: dec
      - name: planes
        type: u16
        offset: relative
        format: dec
      - name: bits_per_pixel
        type: u16
        offset: relative
        format: dec
      - name: compression
        type:
          enum:
            name: Compression
            underlying: u32
        offset: relative
      - name: image_size
        type: u32
        offset: relative
        format: dec
      - name: x_pixels_per_meter
        type: i32
        offset: relative
        format: dec
      - name: y_pixels_per_meter
        type: i32
        offset: relative
        format: dec
      - name: colors_used
        type: u32
        offset: relative
        format: dec
      - name: colors_important
        type: u32
        offset: relative
        format: dec
root:
  name: BMPFile
  fields:
    - name: file_header
      type:
        struct: BMPFileHeader
      offset: "0"
    - name: dib_header
      type:
        struct: DIBHeader
      offset: "14"
"#;

pub const WAV_YAML: &'static str = r#"
name: WAV
magic: [0x52, 0x49, 0x46, 0x46]
enums:
  - name: AudioFormat
    values:
      PCM: 1
      ADPCM: 2
      IEEE_FLOAT: 3
      ALAW: 6
      MULAW: 7
structs:
  - name: RIFFChunk
    fields:
      - name: chunk_id
        type:
          string:
            length: "4"
            encoding: ascii
        offset: "0"
      - name: chunk_size
        type: u32
        offset: relative
        format: dec
      - name: format
        type:
          string:
            length: "4"
            encoding: ascii
        offset: relative
  - name: FmtChunk
    fields:
      - name: subchunk_id
        type:
          string:
            length: "4"
            encoding: ascii
        offset: "0"
      - name: subchunk_size
        type: u32
        offset: relative
        format: dec
      - name: audio_format
        type:
          enum:
            name: AudioFormat
            underlying: u16
        offset: relative
      - name: num_channels
        type: u16
        offset: relative
        format: dec
      - name: sample_rate
        type: u32
        offset: relative
        format: dec
      - name: byte_rate
        type: u32
        offset: relative
        format: dec
      - name: block_align
        type: u16
        offset: relative
        format: dec
      - name: bits_per_sample
        type: u16
        offset: relative
        format: dec
  - name: DataChunk
    fields:
      - name: subchunk_id
        type:
          string:
            length: "4"
            encoding: ascii
        offset: "0"
      - name: subchunk_size
        type: u32
        offset: relative
        format: dec
root:
  name: WAVFile
  fields:
    - name: riff
      type:
        struct: RIFFChunk
      offset: "0"
    - name: fmt
      type:
        struct: FmtChunk
      offset: "12"
    - name: data
      type:
        struct: DataChunk
      offset: "36"
"#;

pub const ZIP_YAML: &'static str = r#"
name: ZIP
magic: [0x50, 0x4B, 0x03, 0x04]
enums:
  - name: CompressionMethod
    values:
      STORE: 0
      DEFLATE: 8
      BZIP2: 12
      LZMA: 14
structs:
  - name: LocalFileHeader
    fields:
      - name: signature
        type: u32
        offset: "0"
        format: hex
      - name: version_needed
        type: u16
        offset: relative
        format: hex
      - name: flags
        type: u16
        offset: relative
        format: hex
      - name: compression_method
        type:
          enum:
            name: CompressionMethod
            underlying: u16
        offset: relative
      - name: last_mod_time
        type: u16
        offset: relative
        format: hex
      - name: last_mod_date
        type: u16
        offset: relative
        format: hex
      - name: crc32
        type: u32
        offset: relative
        format: hex
      - name: compressed_size
        type: u32
        offset: relative
        format: dec
      - name: uncompressed_size
        type: u32
        offset: relative
        format: dec
      - name: filename_length
        type: u16
        offset: relative
        format: dec
      - name: extra_field_length
        type: u16
        offset: relative
        format: dec
      - name: filename
        type:
          string:
            length: filename_length
            encoding: utf8
        offset: relative
      - name: extra_field
        type:
          bytes:
            length: extra_field_length
        offset: relative
        format: hex
root:
  name: ZIPFile
  fields:
    - name: local_file_header
      type:
        struct: LocalFileHeader
      offset: "0"
"#;

pub const ELF_YAML: &'static str = r#"
name: ELF
magic: [0x7F, 0x45, 0x4C, 0x46]
enums:
  - name: EI_CLASS
    values:
      ELFCLASS32: 1
      ELFCLASS64: 2
  - name: EI_DATA
    values:
      ELFDATA2LSB: 1
      ELFDATA2MSB: 2
  - name: EI_OSABI
    values:
      ELFOSABI_NONE: 0
      ELFOSABI_SYSV: 0
      ELFOSABI_HPUX: 1
      ELFOSABI_NETBSD: 2
      ELFOSABI_LINUX: 3
  - name: E_TYPE
    values:
      ET_NONE: 0
      ET_REL: 1
      ET_EXEC: 2
      ET_DYN: 3
      ET_CORE: 4
  - name: E_MACHINE
    values:
      EM_NONE: 0
      EM_386: 3
      EM_X86_64: 62
      EM_ARM: 40
      EM_AARCH64: 183
structs:
  - name: ELFHeader32
    fields:
      - name: e_ident_magic
        type:
          bytes:
            length: "4"
        offset: "0"
        format: hex
      - name: e_ident_class
        type:
          enum:
            name: EI_CLASS
            underlying: u8
        offset: relative
      - name: e_ident_data
        type:
          enum:
            name: EI_DATA
            underlying: u8
        offset: relative
      - name: e_ident_version
        type: u8
        offset: relative
        format: dec
      - name: e_ident_osabi
        type:
          enum:
            name: EI_OSABI
            underlying: u8
        offset: relative
      - name: e_ident_abiversion
        type: u8
        offset: relative
        format: dec
      - name: e_ident_pad
        type:
          bytes:
            length: "7"
        offset: relative
        format: hex
      - name: e_type
        type:
          enum:
            name: E_TYPE
            underlying: u16
        offset: relative
      - name: e_machine
        type:
          enum:
            name: E_MACHINE
            underlying: u16
        offset: relative
      - name: e_version
        type: u32
        offset: relative
        format: dec
      - name: e_entry
        type: u32
        offset: relative
        format: hex
      - name: e_phoff
        type: u32
        offset: relative
        format: hex
      - name: e_shoff
        type: u32
        offset: relative
        format: hex
      - name: e_flags
        type: u32
        offset: relative
        format: hex
      - name: e_ehsize
        type: u16
        offset: relative
        format: dec
      - name: e_phentsize
        type: u16
        offset: relative
        format: dec
      - name: e_phnum
        type: u16
        offset: relative
        format: dec
      - name: e_shentsize
        type: u16
        offset: relative
        format: dec
      - name: e_shnum
        type: u16
        offset: relative
        format: dec
      - name: e_shstrndx
        type: u16
        offset: relative
        format: dec
  - name: ELFHeader64
    fields:
      - name: e_ident_magic
        type:
          bytes:
            length: "4"
        offset: "0"
        format: hex
      - name: e_ident_class
        type:
          enum:
            name: EI_CLASS
            underlying: u8
        offset: relative
      - name: e_ident_data
        type:
          enum:
            name: EI_DATA
            underlying: u8
        offset: relative
      - name: e_ident_version
        type: u8
        offset: relative
        format: dec
      - name: e_ident_osabi
        type:
          enum:
            name: EI_OSABI
            underlying: u8
        offset: relative
      - name: e_ident_abiversion
        type: u8
        offset: relative
        format: dec
      - name: e_ident_pad
        type:
          bytes:
            length: "7"
        offset: relative
        format: hex
      - name: e_type
        type:
          enum:
            name: E_TYPE
            underlying: u16
        offset: relative
      - name: e_machine
        type:
          enum:
            name: E_MACHINE
            underlying: u16
        offset: relative
      - name: e_version
        type: u32
        offset: relative
        format: dec
      - name: e_entry
        type: u64
        offset: relative
        format: hex
      - name: e_phoff
        type: u64
        offset: relative
        format: hex
      - name: e_shoff
        type: u64
        offset: relative
        format: hex
      - name: e_flags
        type: u32
        offset: relative
        format: hex
      - name: e_ehsize
        type: u16
        offset: relative
        format: dec
      - name: e_phentsize
        type: u16
        offset: relative
        format: dec
      - name: e_phnum
        type: u16
        offset: relative
        format: dec
      - name: e_shentsize
        type: u16
        offset: relative
        format: dec
      - name: e_shnum
        type: u16
        offset: relative
        format: dec
      - name: e_shstrndx
        type: u16
        offset: relative
        format: dec
root:
  name: ELFFile
  fields:
    - name: ident_class
      type: u8
      offset: "4"
    - name: header32
      type:
        struct: ELFHeader32
      offset: "0"
      condition:
        when: ident_class == 1
    - name: header64
      type:
        struct: ELFHeader64
      offset: "0"
      condition:
        when: ident_class == 2
"#;

pub const PE_YAML: &'static str = r#"
name: PE
magic: [0x4D, 0x5A]
enums:
  - name: MachineType
    values:
      IMAGE_FILE_MACHINE_I386: 0x014C
      IMAGE_FILE_MACHINE_AMD64: 0x8664
      IMAGE_FILE_MACHINE_ARM: 0x01C0
      IMAGE_FILE_MACHINE_ARM64: 0xAA64
  - name: MagicOptional
    values:
      IMAGE_NT_OPTIONAL_HDR32_MAGIC: 0x10B
      IMAGE_NT_OPTIONAL_HDR64_MAGIC: 0x20B
  - name: Subsystem
    values:
      IMAGE_SUBSYSTEM_UNKNOWN: 0
      IMAGE_SUBSYSTEM_NATIVE: 1
      IMAGE_SUBSYSTEM_WINDOWS_GUI: 2
      IMAGE_SUBSYSTEM_WINDOWS_CUI: 3
structs:
  - name: DOSHeader
    fields:
      - name: e_magic
        type:
          string:
            length: "2"
            encoding: ascii
        offset: "0"
      - name: e_cblp
        type: u16
        offset: relative
        format: hex
      - name: e_cp
        type: u16
        offset: relative
        format: hex
      - name: e_crlc
        type: u16
        offset: relative
        format: hex
      - name: e_cparhdr
        type: u16
        offset: relative
        format: hex
      - name: e_minalloc
        type: u16
        offset: relative
        format: hex
      - name: e_maxalloc
        type: u16
        offset: relative
        format: hex
      - name: e_ss
        type: u16
        offset: relative
        format: hex
      - name: e_sp
        type: u16
        offset: relative
        format: hex
      - name: e_csum
        type: u16
        offset: relative
        format: hex
      - name: e_ip
        type: u16
        offset: relative
        format: hex
      - name: e_cs
        type: u16
        offset: relative
        format: hex
      - name: e_lfarlc
        type: u16
        offset: relative
        format: hex
      - name: e_ovno
        type: u16
        offset: relative
        format: hex
      - name: e_res
        type:
          bytes:
            length: "8"
        offset: relative
        format: hex
      - name: e_oemid
        type: u16
        offset: relative
        format: hex
      - name: e_oeminfo
        type: u16
        offset: relative
        format: hex
      - name: e_res2
        type:
          bytes:
            length: "20"
        offset: relative
        format: hex
      - name: e_lfanew
        type: u32
        offset: relative
        format: hex
  - name: COFFHeader
    fields:
      - name: signature
        type:
          string:
            length: "4"
            encoding: ascii
        offset: "0"
      - name: machine
        type:
          enum:
            name: MachineType
            underlying: u16
        offset: relative
      - name: number_of_sections
        type: u16
        offset: relative
        format: dec
      - name: timestamp
        type: u32
        offset: relative
        format: dec
      - name: symbol_table_offset
        type: u32
        offset: relative
        format: hex
      - name: number_of_symbols
        type: u32
        offset: relative
        format: dec
      - name: optional_header_size
        type: u16
        offset: relative
        format: dec
      - name: characteristics
        type: u16
        offset: relative
        format: hex
  - name: OptionalHeader32
    fields:
      - name: magic
        type:
          enum:
            name: MagicOptional
            underlying: u16
        offset: "0"
      - name: major_linker_version
        type: u8
        offset: relative
        format: dec
      - name: minor_linker_version
        type: u8
        offset: relative
        format: dec
      - name: size_of_code
        type: u32
        offset: relative
        format: dec
      - name: size_of_initialized_data
        type: u32
        offset: relative
        format: dec
      - name: size_of_uninitialized_data
        type: u32
        offset: relative
        format: dec
      - name: address_of_entry_point
        type: u32
        offset: relative
        format: hex
      - name: base_of_code
        type: u32
        offset: relative
        format: hex
      - name: base_of_data
        type: u32
        offset: relative
        format: hex
      - name: image_base
        type: u32
        offset: relative
        format: hex
      - name: section_alignment
        type: u32
        offset: relative
        format: dec
      - name: file_alignment
        type: u32
        offset: relative
        format: dec
      - name: major_operating_system_version
        type: u16
        offset: relative
        format: dec
      - name: minor_operating_system_version
        type: u16
        offset: relative
        format: dec
      - name: major_image_version
        type: u16
        offset: relative
        format: dec
      - name: minor_image_version
        type: u16
        offset: relative
        format: dec
      - name: major_subsystem_version
        type: u16
        offset: relative
        format: dec
      - name: minor_subsystem_version
        type: u16
        offset: relative
        format: dec
      - name: win32_version_value
        type: u32
        offset: relative
        format: hex
      - name: size_of_image
        type: u32
        offset: relative
        format: dec
      - name: size_of_headers
        type: u32
        offset: relative
        format: dec
      - name: checksum
        type: u32
        offset: relative
        format: hex
      - name: subsystem
        type:
          enum:
            name: Subsystem
            underlying: u16
        offset: relative
      - name: dll_characteristics
        type: u16
        offset: relative
        format: hex
      - name: size_of_stack_reserve
        type: u32
        offset: relative
        format: dec
      - name: size_of_stack_commit
        type: u32
        offset: relative
        format: dec
      - name: size_of_heap_reserve
        type: u32
        offset: relative
        format: dec
      - name: size_of_heap_commit
        type: u32
        offset: relative
        format: dec
      - name: loader_flags
        type: u32
        offset: relative
        format: hex
      - name: number_of_rva_and_sizes
        type: u32
        offset: relative
        format: dec
  - name: OptionalHeader64
    fields:
      - name: magic
        type:
          enum:
            name: MagicOptional
            underlying: u16
        offset: "0"
      - name: major_linker_version
        type: u8
        offset: relative
        format: dec
      - name: minor_linker_version
        type: u8
        offset: relative
        format: dec
      - name: size_of_code
        type: u32
        offset: relative
        format: dec
      - name: size_of_initialized_data
        type: u32
        offset: relative
        format: dec
      - name: size_of_uninitialized_data
        type: u32
        offset: relative
        format: dec
      - name: address_of_entry_point
        type: u32
        offset: relative
        format: hex
      - name: base_of_code
        type: u32
        offset: relative
        format: hex
      - name: image_base
        type: u64
        offset: relative
        format: hex
      - name: section_alignment
        type: u32
        offset: relative
        format: dec
      - name: file_alignment
        type: u32
        offset: relative
        format: dec
      - name: major_operating_system_version
        type: u16
        offset: relative
        format: dec
      - name: minor_operating_system_version
        type: u16
        offset: relative
        format: dec
      - name: major_image_version
        type: u16
        offset: relative
        format: dec
      - name: minor_image_version
        type: u16
        offset: relative
        format: dec
      - name: major_subsystem_version
        type: u16
        offset: relative
        format: dec
      - name: minor_subsystem_version
        type: u16
        offset: relative
        format: dec
      - name: win32_version_value
        type: u32
        offset: relative
        format: hex
      - name: size_of_image
        type: u32
        offset: relative
        format: dec
      - name: size_of_headers
        type: u32
        offset: relative
        format: dec
      - name: checksum
        type: u32
        offset: relative
        format: hex
      - name: subsystem
        type:
          enum:
            name: Subsystem
            underlying: u16
        offset: relative
      - name: dll_characteristics
        type: u16
        offset: relative
        format: hex
      - name: size_of_stack_reserve
        type: u64
        offset: relative
        format: dec
      - name: size_of_stack_commit
        type: u64
        offset: relative
        format: dec
      - name: size_of_heap_reserve
        type: u64
        offset: relative
        format: dec
      - name: size_of_heap_commit
        type: u64
        offset: relative
        format: dec
      - name: loader_flags
        type: u32
        offset: relative
        format: hex
      - name: number_of_rva_and_sizes
        type: u32
        offset: relative
        format: dec
root:
  name: PEFile
  fields:
    - name: dos_header
      type:
        struct: DOSHeader
      offset: "0"
    - name: coff_header
      type:
        struct: COFFHeader
      offset: "dos_header.e_lfanew"
    - name: optional_magic
      type: u16
      offset: "dos_header.e_lfanew + 24"
      format: hex
    - name: optional_header32
      type:
        struct: OptionalHeader32
      offset: "dos_header.e_lfanew + 24"
      condition:
        when: optional_magic == 0x10B
    - name: optional_header64
      type:
        struct: OptionalHeader64
      offset: "dos_header.e_lfanew + 24"
      condition:
        when: optional_magic == 0x20B
"#;

/// The names of the built-in formats, in the order they are listed and tried.
pub open spec fn builtin_names() -> Seq<Seq<char>> {
    seq!["png"@, "bmp"@, "wav"@, "zip"@, "elf"@, "pe"@]
}

/// The YAML texts of the built-in formats, in the same order.
pub open spec fn builtin_texts() -> Seq<Seq<char>> {
    seq![PNG_YAML@, BMP_YAML@, WAV_YAML@, ZIP_YAML@, ELF_YAML@, PE_YAML@]
}

/// The definition a YAML text states, before any reference check.
pub open spec fn yaml_model(text: Seq<char>) -> Option<crate::dsl::FormatModel> {
    match yaml_document(text) {
        Ok(tree) => format_of(tree),
        Err(_) => None,
    }
}

/// The built-in formats as (name, YAML text) pairs.
pub fn get_builtin_formats() -> (r: Vec<(&'static str, &'static str)>)
    ensures
        r@.len() == 6,
        forall|i: int| 0 <= i < 6 ==> (#[trigger] r@[i]).0@ == builtin_names()[i] && r@[i].1@ == builtin_texts()[i],
{
    let mut formats: Vec<(&'static str, &'static str)> = Vec::new();
    formats.push(("png", PNG_YAML));
    formats.push(("bmp", BMP_YAML));
    formats.push(("wav", WAV_YAML));
    formats.push(("zip", ZIP_YAML));
    formats.push(("elf", ELF_YAML));
    formats.push(("pe", PE_YAML));
    formats
}

/// The YAML text of the built-in format whose name is `name` with ASCII capitals made small.
pub fn get_builtin_format(name: &str) -> (r: Option<&'static str>)
    ensures
        match builtin_names().index_of_first(ascii_lower_seq(name@)) {
            Some(i) => r matches Some(t) && t@ == builtin_texts()[i],
            None => r is None,
        },
{
    let key = to_ascii_lower(name);
    let formats = get_builtin_formats();
    let mut i: usize = 0;
    while i < formats.len()
        invariant
            i <= formats@.len(),
            formats@.len() == 6,
            key@ == ascii_lower_seq(name@),
            forall|j: int| 0 <= j < 6 ==> (#[trigger] formats@[j]).0@ == builtin_names()[j] && formats@[j].1@ == builtin_texts()[j],
            forall|j: int| 0 <= j < i ==> builtin_names()[j] != key@,
        decreases formats@.len() - i,
    {
        let k = chars_of(formats[i].0);
        if chars_eq(k.as_slice(), key.as_slice()) {
            proof {
                builtin_names().index_of_first_ensures(key@);
            }
            return Some(formats[i].1);
        }
        i = i + 1;
    }
    proof {
        builtin_names().index_of_first_ensures(key@);
    }
    None
}

/// Why a built-in format could not be read.
#[derive(Debug)]
pub enum BuiltinFormatError {
    /// No built-in format has this name.
    UnknownBuiltin(String),
    /// The built-in text did not read as a valid definition.
    Definition(DslError),
}

/// Reads the built-in format `name` (see `get_builtin_format`) with `FormatDefinition::from_yaml`.
pub fn parse_builtin_format(name: &str) -> (r: Result<FormatDefinition, BuiltinFormatError>)
    ensures
        match builtin_names().index_of_first(ascii_lower_seq(name@)) {
            None => (r matches Err(BuiltinFormatError::UnknownBuiltin(n)) && n@ == name@),
            Some(i) => match yaml_model(builtin_texts()[i]) {
                Some(f) => (r is Ok <==> !has_cycle(f) && refs_resolved(f))
                    && (r matches Ok(d) ==> d@ == f)
                    && (has_cycle(f) ==> (r matches Err(BuiltinFormatError::Definition(e)) && e is CircularReference))
                    && (cycle_message(f) matches Some(t) ==> (r matches Err(BuiltinFormatError::Definition(DslError::CircularReference(m)))
                        && m@ == t)),
                None => (r matches Err(BuiltinFormatError::Definition(e)) && e is YamlError),
            },
        },
{
    let yaml = match get_builtin_format(name) {
        Some(y) => y,
        None => return Err(BuiltinFormatError::UnknownBuiltin(owned(name))),
    };
    match FormatDefinition::from_yaml(yaml) {
        Ok(def) => Ok(def),
        Err(e) => Err(BuiltinFormatError::Definition(e)),
    }
}

/// Whether `magic` is a prefix of `data`.
pub fn starts_with(data: &[u8], magic: &[u8]) -> (r: bool)
    ensures
        r == (magic@.len() <= data@.len() && data@.subrange(0, magic@.len() as int) == magic@),
{
    if data.len() < magic.len() {
        return false;
    }
    let mut i: usize = 0;
    while i < magic.len()
        invariant
            magic@.len() <= data@.len(),
            i <= magic@.len(),
            forall|j: int| 0 <= j < i ==> data@[j] == magic@[j],
        decreases magic@.len() - i,
    {
        if data[i] != magic[i] {
            return false;
        }
        i = i + 1;
    }
    assert(data@.subrange(0, magic@.len() as int) =~= magic@);
    true
}

/// The built-in format `i` reads as a definition whose references check out
/// and whose magic bytes begin `data`.
pub open spec fn builtin_matches(i: int, data: Seq<u8>) -> bool {
    &&& yaml_model(builtin_texts()[i]) matches Some(f)
    &&& !has_cycle(f) && refs_resolved(f)
    &&& f.magic matches Some(m) && m.len() <= data.len() && data.subrange(0, m.len() as int) == m
}

/// The first built-in format (in the listed order) that reads as a valid
/// definition and whose magic bytes begin `data`.
pub fn detect_format(data: &[u8]) -> (r: Option<FormatDefinition>)
    ensures
        match r {
            Some(d) => exists|i: int| 0 <= i < 6 && #[trigger] builtin_matches(i, data@)
                && yaml_model(builtin_texts()[i]) == Some(d@)
                && forall|j: int| 0 <= j < i ==> !builtin_matches(j, data@),
            None => forall|i: int| 0 <= i < 6 ==> !#[trigger] builtin_matches(i, data@),
        },
{
    let formats = get_builtin_formats();
    let mut i: usize = 0;
    while i < formats.len()
        invariant
            i <= formats@.len(),
            formats@.len() == 6,
            forall|j: int| 0 <= j < 6 ==> (#[trigger] formats@[j]).0@ == builtin_names()[j] && formats@[j].1@ == builtin_texts()[j],
            forall|j: int| 0 <= j < i ==> !#[trigger] builtin_matches(j, data@),
        decreases formats@.len() - i,
    {
        let ghost text = builtin_texts()[i as int];
        assert(formats@[i as int].1@ == text);
        match FormatDefinition::from_yaml(formats[i].1) {
            Ok(def) => {
                let hit = match &def.magic {
                    Some(magic) => starts_with(data, magic.as_slice()),
                    None => false,
                };
                assert(yaml_model(text) == Some(def@));
                if hit {
                    assert(builtin_matches(i as int, data@));
                    return Some(def);
                }
                assert(!builtin_matches(i as int, data@));
            },
            Err(_) => {
                assert(!builtin_matches(i as int, data@));
            },
        }
        i = i + 1;
    }
    None
}

} // verus!
