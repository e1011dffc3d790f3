use voxel_world::memory::{AllocError, Allocation, Allocator, MemoryRequirements, MIN_CHUNK_SIZE};

const DEVICE_LOCAL: u32 = 0x1;
const HOST_VISIBLE: u32 = 0x2;

const MEMS: &[u32] = &[DEVICE_LOCAL, HOST_VISIBLE];
const SIZES: &[usize] = &[10, 16, 20, 32, 64, 112, 511, 512, 1024];
const ALIGNMENTS: &[usize] = &[1, 4, 8, 16, 32, 64, 128, 1024, 4096];

/// One memory type of each kind, atom size 64 to exercise the mapped
/// alignment rule.
fn allocator() -> Allocator {
    Allocator::new(vec![DEVICE_LOCAL, HOST_VISIBLE], 64)
}

/// Serves the request, bringing simulated device memory when the pool asks
/// for it; counts those device allocations in `device_allocs`.
fn must_alloc(
    a: &mut Allocator,
    next_memory: &mut u64,
    device_allocs: &mut usize,
    properties: u32,
    requirements: MemoryRequirements,
    mapped: bool,
) -> Allocation {
    match a.allocate(properties, requirements, mapped) {
        Ok(done) => done,
        Err(AllocError::NeedDeviceMemory { memory_type_index, chunk_size, fallback_size: _ }) => {
            *next_memory += 1;
            *device_allocs += 1;
            a.grow(memory_type_index, *next_memory, chunk_size, requirements, mapped)
        },
        Err(AllocError::NoSuitableMemoryType) => panic!("no suitable memory type"),
    }
}

fn test_alloc(
    a: &mut Allocator,
    next_memory: &mut u64,
    device_allocs: &mut usize,
    size: usize,
    alignment: usize,
    properties: u32,
    mapped: bool,
) -> Allocation {
    let requirements = MemoryRequirements { size, alignment, memory_type_bits: u32::MAX };
    let alloc = must_alloc(a, next_memory, device_allocs, properties, requirements, mapped);
    assert_eq!(alloc.size(), size);
    assert_eq!(
        alloc.offset() % alignment,
        0,
        "allocation alignment mismatch (alloc offset: {}, alignment: {}, size: {})",
        alloc.offset(),
        alignment,
        alloc.size()
    );
    if mapped {
        // a mapped allocation is also aligned to the non-coherent atom size
        assert_eq!(alloc.offset() % 64, 0);
        let data = alloc.data.as_ref().unwrap();
        assert_eq!(data.len(), size);
    } else {
        assert!(alloc.data.is_none());
    }
    alloc
}

#[test]
fn simple_allocs() {
    let mut a = allocator();
    let mut next_memory = 0u64;
    let mut device_allocs = 0usize;
    let mut allocations = Vec::new();

    for &mem in MEMS {
        for &size in SIZES {
            for &alignment in ALIGNMENTS {
                let alloc = test_alloc(
                    &mut a,
                    &mut next_memory,
                    &mut device_allocs,
                    size,
                    alignment,
                    mem,
                    false,
                );
                allocations.push(alloc);
            }
        }
    }
}

#[test]
fn mapped_allocs() {
    let mut a = allocator();
    let mut next_memory = 0u64;
    let mut device_allocs = 0usize;
    let mut allocations = Vec::new();

    for &size in SIZES {
        for &alignment in ALIGNMENTS {
            let mut alloc = test_alloc(
                &mut a,
                &mut next_memory,
                &mut device_allocs,
                size,
                alignment,
                HOST_VISIBLE,
                true,
            );
            let id = (size * 31 + alignment) as u8;
            let data = alloc.data.as_mut().unwrap();
            for val in data.iter_mut() {
                *val = id;
            }
            allocations.push((id, alloc));
        }
    }

    for (id, alloc) in allocations {
        let data = alloc.data.as_ref().unwrap();
        for &val in data.iter() {
            assert_eq!(val, id);
        }
    }
}

#[test]
fn no_suitable_memory_type() {
    let mut a = allocator();
    let requirements = MemoryRequirements { size: 64, alignment: 1, memory_type_bits: 0 };
    match a.allocate(HOST_VISIBLE, requirements, false) {
        Err(AllocError::NoSuitableMemoryType) => (),
        _ => panic!("a request no memory type can back must be refused"),
    }
    // asking for property flags nothing carries is refused too
    let requirements = MemoryRequirements { size: 64, alignment: 1, memory_type_bits: u32::MAX };
    match a.allocate(0x8, requirements, false) {
        Err(AllocError::NoSuitableMemoryType) => (),
        _ => panic!("a request no memory type can back must be refused"),
    }
}

#[test]
fn freed_blocks_are_reused() {
    let mut a = allocator();
    let mut next_memory = 0u64;
    let mut device_allocs = 0usize;
    let requirements = MemoryRequirements { size: 4096, alignment: 256, memory_type_bits: u32::MAX };
    let first = must_alloc(&mut a, &mut next_memory, &mut device_allocs, HOST_VISIBLE, requirements, false);
    let offset = first.offset();
    a.free(&first);
    let second = must_alloc(&mut a, &mut next_memory, &mut device_allocs, HOST_VISIBLE, requirements, false);
    // first-fit finds the freed block again
    assert_eq!(second.offset(), offset);
    assert_eq!(device_allocs, 1);
}

#[test]
fn fragmentation_stays_bounded() {
    let mut a = allocator();
    let mut next_memory = 0u64;
    let mut device_allocs = 0usize;
    let cycle = [64usize, 1024, 16];

    let mut live = Vec::new();
    let mut freed_set = Vec::new();
    for i in 0..100 {
        let size = cycle[i % 3];
        let requirements = MemoryRequirements { size, alignment: 256, memory_type_bits: u32::MAX };
        let alloc = must_alloc(
            &mut a,
            &mut next_memory,
            &mut device_allocs,
            HOST_VISIBLE,
            requirements,
            false,
        );
        assert_eq!(alloc.offset() % 256, 0);
        if size == 1024 {
            freed_set.push(alloc);
        } else {
            live.push(alloc);
        }
    }
    for alloc in freed_set.drain(..) {
        a.free(&alloc);
    }
    for _ in 0..50 {
        let requirements =
            MemoryRequirements { size: 1024, alignment: 256, memory_type_bits: u32::MAX };
        let alloc = must_alloc(
            &mut a,
            &mut next_memory,
            &mut device_allocs,
            HOST_VISIBLE,
            requirements,
            false,
        );
        assert_eq!(alloc.offset() % 256, 0);
        live.push(alloc);
    }
    // all of this fits in a single minimum-size device region
    let total_live: usize = live.iter().map(|x| x.size()).sum();
    assert!(device_allocs <= total_live / MIN_CHUNK_SIZE + 1);
    assert_eq!(device_allocs, 1);
}
