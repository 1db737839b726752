use bootgfx::memmap::{
    parse_descriptor, push_descriptor, EfiMemoryType, MemoryDescriptor, MemoryMapHolder,
    DESCRIPTOR_BYTES, MEMORY_MAP_BUFFER_SIZE,
};

fn sample_descriptors() -> Vec<MemoryDescriptor> {
    vec![
        MemoryDescriptor {
            memory_type: EfiMemoryType::BOOT_SERVICES_DATA,
            physical_start: 0x0,
            virtual_start: 0x0,
            number_of_pages: 0x20,
            attribute: 0xf,
        },
        MemoryDescriptor {
            memory_type: EfiMemoryType::CONVENTIONAL_MEMORY,
            physical_start: 0x0010_0000,
            virtual_start: 0x0,
            number_of_pages: 0xdead,
            attribute: 0x8000_0000_0000_000f,
        },
        MemoryDescriptor {
            memory_type: EfiMemoryType::MEMORY_MAPPED_IO,
            physical_start: 0xffff_ffff_0000_0000,
            virtual_start: 0x1234_5678_9abc_def0,
            number_of_pages: 1,
            attribute: 0,
        },
    ]
}

fn build_bytes(descs: &[MemoryDescriptor], stride: usize) -> Vec<u8> {
    let mut bytes = Vec::new();
    for d in descs {
        let before = bytes.len();
        push_descriptor(&mut bytes, d);
        while bytes.len() < before + stride {
            bytes.push(0);
        }
    }
    bytes
}

#[test]
fn new_holder_reports_capacity() {
    let m = MemoryMapHolder::new();
    assert_eq!(m.memory_map_size, MEMORY_MAP_BUFFER_SIZE);
    assert_eq!(m.map_key, 0);
    assert_eq!(m.descriptor_size, 0);
    assert_eq!(m.descriptor_version, 0);
}

#[test]
fn descriptor_encoding_round_trips() {
    for d in sample_descriptors() {
        let mut bytes = Vec::new();
        push_descriptor(&mut bytes, &d);
        assert_eq!(bytes.len(), DESCRIPTOR_BYTES);
        assert_eq!(parse_descriptor(&bytes, 0), d);
    }
}

#[test]
fn iterate_reconstructs_descriptors_at_padded_stride() {
    let descs = sample_descriptors();
    let stride = 48;
    let bytes = build_bytes(&descs, stride);
    assert_eq!(bytes.len(), descs.len() * stride);
    let mut m = MemoryMapHolder::new();
    m.populate(&bytes, 0x77, stride, 1);
    assert_eq!(m.memory_map_size, 3 * stride);
    assert_eq!(m.map_key, 0x77);
    assert_eq!(m.descriptors(), descs);
}

#[test]
fn iterate_reconstructs_descriptors_back_to_back() {
    let descs = sample_descriptors();
    let bytes = build_bytes(&descs, DESCRIPTOR_BYTES);
    let mut m = MemoryMapHolder::new();
    m.populate(&bytes, 0, DESCRIPTOR_BYTES, 1);
    assert_eq!(m.descriptors(), descs);
}

#[test]
fn iterator_yields_in_order_then_stops() {
    let descs = sample_descriptors();
    let stride = 56;
    let bytes = build_bytes(&descs, stride);
    let mut m = MemoryMapHolder::new();
    m.populate(&bytes, 0, stride, 1);
    let mut it = m.iter();
    assert_eq!(it.next(), Some(descs[0]));
    assert_eq!(it.next(), Some(descs[1]));
    assert_eq!(it.next(), Some(descs[2]));
    assert_eq!(it.next(), None);
    assert_eq!(it.next(), None);
}

#[test]
fn iteration_is_restartable() {
    let descs = sample_descriptors();
    let bytes = build_bytes(&descs, 48);
    let mut m = MemoryMapHolder::new();
    m.populate(&bytes, 0, 48, 1);
    let first: Vec<_> = m.descriptors();
    let second: Vec<_> = m.descriptors();
    assert_eq!(first, second);
}

#[test]
fn remainder_bytes_stop_iteration_before_partial_record() {
    let descs = sample_descriptors();
    let stride = 48;
    let mut bytes = build_bytes(&descs[..2], stride);
    for _ in 0..10 {
        bytes.push(0xaa);
    }
    let mut m = MemoryMapHolder::new();
    m.populate(&bytes, 0, stride, 1);
    assert_eq!(m.descriptors(), descs[..2].to_vec());
}

#[test]
fn memory_type_codes_round_trip() {
    let kinds = [
        EfiMemoryType::RESERVED,
        EfiMemoryType::LOADER_CODE,
        EfiMemoryType::LOADER_DATA,
        EfiMemoryType::BOOT_SERVICES_CODE,
        EfiMemoryType::BOOT_SERVICES_DATA,
        EfiMemoryType::RUNTIME_SERVICES_CODE,
        EfiMemoryType::RUNTIME_SERVICES_DATA,
        EfiMemoryType::CONVENTIONAL_MEMORY,
        EfiMemoryType::UNUSABLE_MEMORY,
        EfiMemoryType::ACPI_RECLAIM_MEMORY,
        EfiMemoryType::ACPI_MEMORY_NVS,
        EfiMemoryType::MEMORY_MAPPED_IO,
        EfiMemoryType::MEMORY_MAPPED_IO_PORT_SPACE,
        EfiMemoryType::PAL_CODE,
        EfiMemoryType::PERSISTENT_MEMORY,
    ];
    for (i, k) in kinds.iter().enumerate() {
        assert_eq!(k.code(), i as u64);
        assert_eq!(EfiMemoryType::from_code(i as u64), *k);
    }
    assert_eq!(EfiMemoryType::from_code(99), EfiMemoryType::RESERVED);
}

#[test]
fn unknown_memory_type_parses_as_reserved() {
    let d = MemoryDescriptor {
        memory_type: EfiMemoryType::PAL_CODE,
        physical_start: 1,
        virtual_start: 2,
        number_of_pages: 3,
        attribute: 4,
    };
    let mut bytes = Vec::new();
    push_descriptor(&mut bytes, &d);
    bytes[0] = 200;
    let parsed = parse_descriptor(&bytes, 0);
    assert_eq!(parsed.memory_type, EfiMemoryType::RESERVED);
    assert_eq!(parsed.physical_start, 1);
}
