use subnet_garden::AllocateError;
use subnet_garden::CreateError;
use subnet_garden::RemoveError;
use subnet_garden::RenameError;
use subnet_garden::block::Family;
use subnet_garden::block::IpBlock;
use subnet_garden::memory::new_test_space;
use subnet_garden::memory::MemorySpace;
use subnet_garden::memory::MemorySubnetGarden;

fn b4(a: u8, b: u8, c: u8, d: u8, p: u8) -> IpBlock {
    IpBlock::v4(a, b, c, d, p).unwrap()
}

fn b6(s: [u16; 8], p: u8) -> IpBlock {
    IpBlock::v6(&s, p).unwrap()
}

fn test_cidr4() -> IpBlock {
    b4(10, 20, 0, 0, 16)
}

fn test_cidr6() -> IpBlock {
    b6([1, 2, 3, 4, 10, 20, 0, 0], 112)
}

fn family_rank(f: Family) -> u8 {
    match f {
        Family::V4 => 0,
        Family::V6 => 1,
    }
}

#[test]
fn new_memory_garden() {
    let instance = MemorySubnetGarden::new();
    assert_eq!(instance.space_count(), 0);
}

#[test]
fn duplicate_object() {
    let mut instance = new_test_space();
    let result = instance.new_space("test4", test_cidr4());
    assert_eq!(result.err(), Some(CreateError::DuplicateObject));
}

#[test]
fn tests_success() {
    let instance = new_test_space();
    assert_eq!(instance.space_count(), 2);
}

#[test]
fn remove_space_no_such_object() {
    let mut instance = new_test_space();
    let result = instance.remove_space("does-not-exist");
    assert_eq!(result.err(), Some(RemoveError::NoSuchObject));
}

#[test]
fn remove_space_success() {
    let mut instance = new_test_space();
    instance.remove_space("test4").unwrap();
    assert_eq!(instance.space_count(), 1);
}

#[test]
fn space_success() {
    let mut instance = new_test_space();
    let space = instance.space_mut("test4").unwrap();
    assert_eq!(*space.cidr(), test_cidr4());
}

#[test]
fn space_not_found() {
    let mut instance = new_test_space();
    assert!(instance.space_mut("does-not-exist").is_none());
}

#[test]
fn space_names_success() {
    let instance = new_test_space();
    let mut names = instance.space_names();
    names.sort();
    assert_eq!(names.len(), 2);
    assert_eq!(names[0], "test4");
    assert_eq!(names[1], "test6");
}

#[test]
fn spaces_success() {
    let instance = new_test_space();
    let mut spaces = instance.spaces();
    spaces.sort_by_key(|s| (family_rank(s.cidr().family), s.cidr().addr, s.cidr().prefix));
    assert_eq!(spaces.len(), 2);
    assert_eq!(*spaces[0].cidr(), test_cidr4());
    assert_eq!(*spaces[1].cidr(), test_cidr6());
}

#[test]
fn entries_success() {
    let instance = new_test_space();
    let mut entries = instance.entries();
    entries.sort_by(|a, b| a.0.cmp(&b.0));
    assert_eq!(entries.len(), 2);
    assert_eq!(entries[0].0, "test4");
    assert_eq!(*entries[0].1.cidr(), test_cidr4());
    assert_eq!(entries[1].0, "test6");
    assert_eq!(*entries[1].1.cidr(), test_cidr6());
}

#[test]
fn too_many_bits() {
    let mut instance = new_test_space();
    let space = instance.space_mut("test4").unwrap();
    let result = space.allocate(17, None);
    assert_eq!(result.err(), Some(AllocateError::NoSpaceAvailable));
}

#[test]
fn no_space_available() {
    let mut instance = new_test_space();
    let space = instance.space_mut("test4").unwrap();
    space.allocate(16, None).unwrap();
    let result = space.allocate(16, None);
    assert_eq!(result.err(), Some(AllocateError::NoSpaceAvailable));
}

#[test]
fn allocate_name_already_exists() {
    let mut instance = new_test_space();
    let space = instance.space_mut("test4").unwrap();
    space.allocate(4, Some("a-name")).unwrap();
    let result = space.allocate(4, Some("a-name"));
    assert_eq!(result.err(), Some(AllocateError::DuplicateName));
}

#[test]
fn allocate_cidr_already_exists() {
    let mut instance = new_test_space();
    let space = instance.space_mut("test4").unwrap();
    space.allocate(4, Some("10.20.0.16/28")).unwrap();
    let result = space.allocate(4, None);
    assert_eq!(result.err(), Some(AllocateError::DuplicateName));
}

#[test]
fn allocate_named() {
    let mut instance = new_test_space();
    let space = instance.space_mut("test4").unwrap();
    let result = space.allocate(4, Some("a-name")).unwrap();
    let looked_up = space.find_by_name("a-name").unwrap();
    assert_eq!(looked_up, result);
}

#[test]
fn allocate_success_v4() {
    let mut instance = new_test_space();
    let space = instance.space_mut("test4").unwrap();
    let result = space.allocate(4, None).unwrap();
    assert_eq!(result, b4(10, 20, 0, 0, 28));
}

#[test]
fn allocate_success_v6() {
    let mut instance = new_test_space();
    let space = instance.space_mut("test6").unwrap();
    let result = space.allocate(4, None).unwrap();
    assert_eq!(result, b6([1, 2, 3, 4, 10, 20, 0, 0], 124));
}

#[test]
fn allocate_multi_sizes() {
    let mut instance = new_test_space();
    let space = instance.space_mut("test4").unwrap();
    let result1 = space.allocate(4, None).unwrap();
    assert_eq!(result1, b4(10, 20, 0, 0, 28));
    let result2 = space.allocate(8, None).unwrap();
    assert_eq!(result2, b4(10, 20, 1, 0, 24));
}

#[test]
fn max_bits() {
    let mut instance = new_test_space();
    let space = instance.space_mut("test4").unwrap();
    let result = space.allocate(16, None).unwrap();
    assert_eq!(result, b4(10, 20, 0, 0, 16));
}

#[test]
fn out_of_range() {
    let mut instance = new_test_space();
    let space = instance.space_mut("test4").unwrap();
    let cidr = b4(10, 21, 0, 0, 28);
    let result = space.claim(&cidr, None);
    assert_eq!(result, Err(AllocateError::NoSpaceAvailable));
}

#[test]
fn already_claimed() {
    let mut instance = new_test_space();
    let space = instance.space_mut("test4").unwrap();
    let cidr = b4(10, 20, 0, 0, 28);
    space.claim(&cidr, None).unwrap();
    let result = space.claim(&cidr, None);
    assert_eq!(result, Err(AllocateError::NoSpaceAvailable));
}

#[test]
fn alread_named() {
    let mut instance = new_test_space();
    let space = instance.space_mut("test4").unwrap();
    let cidr = b4(10, 20, 0, 0, 28);
    space.allocate(4, Some("10.20.0.0/28")).unwrap();
    let result = space.claim(&cidr, None);
    assert_eq!(result, Err(AllocateError::DuplicateName));
}

#[test]
fn already_allocated() {
    let mut instance = new_test_space();
    let space = instance.space_mut("test4").unwrap();
    let cidr = b4(10, 20, 0, 0, 28);
    space.allocate(16, None).unwrap();
    let result = space.claim(&cidr, None);
    assert_eq!(result, Err(AllocateError::NoSpaceAvailable));
}

#[test]
fn claim_success() {
    let mut instance = new_test_space();
    let space = instance.space_mut("test4").unwrap();
    let cidr = b4(10, 20, 0, 0, 28);
    let result = space.claim(&cidr, None);
    assert_eq!(result, Ok(()));
}

#[test]
fn names_success() {
    let mut instance = new_test_space();
    let space = instance.space_mut("test4").unwrap();
    space.allocate(4, Some("a-name")).unwrap();
    space.allocate(4, Some("b-name")).unwrap();
    space.allocate(4, None).unwrap();
    let mut names = space.names();
    names.sort();
    assert_eq!(names.len(), 3);
    assert_eq!(names[0], "10.20.0.32/28");
    assert_eq!(names[1], "a-name");
    assert_eq!(names[2], "b-name");
}

#[test]
fn tests_no_cidrs() {
    let mut instance = new_test_space();
    let space = instance.space_mut("test4").unwrap();
    let cidrs = space.cidrs();
    assert_eq!(cidrs.len(), 0);
}

#[test]
fn some() {
    let mut instance = new_test_space();
    let space = instance.space_mut("test4").unwrap();
    space.allocate(4, None).unwrap();
    space.allocate(5, None).unwrap();
    space.allocate(5, None).unwrap();
    space.allocate(4, None).unwrap();
    space.allocate(4, None).unwrap();
    space.allocate(4, None).unwrap();
    let cidrs = space.cidrs();
    assert_eq!(cidrs.len(), 6);
    assert_eq!(b4(10, 20, 0, 0, 28), cidrs[0]);
    assert_eq!(b4(10, 20, 0, 16, 28), cidrs[1]);
    assert_eq!(b4(10, 20, 0, 32, 27), cidrs[2]);
    assert_eq!(b4(10, 20, 0, 64, 27), cidrs[3]);
    assert_eq!(b4(10, 20, 0, 96, 28), cidrs[4]);
    assert_eq!(b4(10, 20, 0, 112, 28), cidrs[5]);
}

#[test]
fn space_entries_success() {
    let mut instance = new_test_space();
    let space = instance.space_mut("test4").unwrap();
    space.allocate(4, Some("a-name")).unwrap();
    space.allocate(4, Some("b-name")).unwrap();
    space.allocate(4, None).unwrap();
    let mut entries = space.entries();
    entries.sort_by(|a, b| a.0.cmp(&b.0));
    assert_eq!(entries.len(), 3);
    assert_eq!(entries[0], (String::from("10.20.0.32/28"), b4(10, 20, 0, 32, 28)));
    assert_eq!(entries[1], (String::from("a-name"), b4(10, 20, 0, 0, 28)));
    assert_eq!(entries[2], (String::from("b-name"), b4(10, 20, 0, 16, 28)));
}

#[test]
fn allocate_with_name() {
    let mut pool = MemorySpace::new(b4(10, 10, 0, 0, 16));
    pool.allocate(8, Some("test")).unwrap();
    let subnets = pool.records();
    assert_eq!(subnets.len(), 1);
    assert_eq!(subnets[0].name.clone().unwrap(), "test");
    assert_eq!(subnets[0].cidr, b4(10, 10, 0, 0, 24));
}

#[test]
fn allocate_without_name() {
    let mut pool = MemorySpace::new(b4(10, 10, 0, 0, 16));
    pool.allocate(8, None).unwrap();
    let subnets = pool.records();
    assert_eq!(subnets.len(), 1);
    assert_eq!(subnets[0].name, None);
    assert_eq!(subnets[0].cidr, b4(10, 10, 0, 0, 24));
}

#[test]
fn free_success_with_name() {
    let mut pool = MemorySpace::new(b4(10, 10, 0, 0, 16));
    pool.allocate(4, Some("test")).unwrap();
    let cidr = pool.resolve_identifier("test").unwrap();
    assert!(pool.free(&cidr));
    assert_eq!(pool.find_by_name("test"), None);
}

#[test]
fn free_success_with_cidr() {
    let mut pool = MemorySpace::new(b4(10, 10, 0, 0, 16));
    pool.allocate(4, Some("test")).unwrap();
    let cidr = pool.resolve_identifier("10.10.0.0/28").unwrap();
    assert!(pool.free(&cidr));
    assert_eq!(pool.find_by_name("test"), None);
}

#[test]
fn free_failure() {
    let mut pool = MemorySpace::new(b4(10, 10, 0, 0, 16));
    let cidr = pool.resolve_identifier("20.20.0.0/24").unwrap();
    assert!(!pool.free(&cidr));
}

#[test]
fn free_then_reallocate_same_width() {
    let mut pool = MemorySpace::new(b4(10, 10, 0, 0, 16));
    let first = pool.allocate(4, Some("keep")).unwrap();
    let second = pool.allocate(4, Some("drop")).unwrap();
    let before: Vec<_> = pool.records();
    assert!(pool.free(&second));
    let again = pool.allocate(4, Some("drop")).unwrap();
    assert_eq!(again, second);
    assert_ne!(again, first);
    assert_eq!(pool.records(), before);
}

#[test]
fn has_cidrs() {
    let mut pool = MemorySpace::new(b4(10, 10, 0, 0, 16));
    pool.allocate(4, Some("test1")).unwrap();
    pool.allocate(6, Some("test2")).unwrap();
    let cidrs = pool.cidrs();
    assert_eq!(cidrs, vec![b4(10, 10, 0, 0, 28), b4(10, 10, 0, 64, 26)]);
}

#[test]
fn no_names() {
    let mut pool = MemorySpace::new(b4(10, 10, 0, 0, 16));
    assert_eq!(pool.names().len(), 0);
    assert_eq!(pool.named_count(), 0);
    assert_eq!(pool.allocated_count(), 0);
    pool.allocate(4, None).unwrap();
    assert_eq!(pool.named_count(), 0);
    assert_eq!(pool.allocated_count(), 1);
}

#[test]
fn no_subnets() {
    let pool = MemorySpace::new(b4(10, 10, 0, 0, 16));
    assert_eq!(pool.max_available_bits(), 16);
}

#[test]
fn has_subnets() {
    let mut pool = MemorySpace::new(b4(10, 10, 0, 0, 16));
    pool.allocate(4, Some("test1")).unwrap();
    pool.allocate(6, Some("test2")).unwrap();
    assert_eq!(pool.max_available_bits(), 15);
    pool.allocate(14, Some("test3")).unwrap();
    pool.allocate(15, Some("test4")).unwrap();
    assert_eq!(pool.max_available_bits(), 13);
}

#[test]
fn test_subnet_no_cidrs() {
    let pool = MemorySpace::new(b4(10, 10, 0, 0, 16));
    assert_eq!(pool.cidrs().len(), 0);
    assert_eq!(pool.records().len(), 0);
}

#[test]
fn rename_success_with_cidr() {
    let mut pool = MemorySpace::new(b4(10, 10, 0, 0, 16));
    pool.allocate(4, None).unwrap();
    let cidr = pool.resolve_identifier("10.10.0.0/28").unwrap();
    pool.rename(&cidr, Some("test2")).unwrap();
    assert_eq!(pool.find_by_name("test2"), Some(b4(10, 10, 0, 0, 28)));
    let subnets = pool.records();
    assert_eq!(subnets.len(), 1);
    assert_eq!(subnets[0].name.clone().unwrap(), "test2");
}

#[test]
fn rename_success_with_name() {
    let mut pool = MemorySpace::new(b4(10, 10, 0, 0, 16));
    pool.allocate(4, Some("test")).unwrap();
    let cidr = pool.resolve_identifier("test").unwrap();
    pool.rename(&cidr, Some("test2")).unwrap();
    assert_eq!(pool.find_by_name("test"), None);
    assert_eq!(pool.find_by_name("test2"), Some(b4(10, 10, 0, 0, 28)));
}

#[test]
fn rename_failure() {
    let mut pool = MemorySpace::new(b4(10, 10, 0, 0, 16));
    pool.allocate(4, Some("test")).unwrap();
    let other = pool.allocate(4, None).unwrap();
    let result = pool.rename(&other, Some("test"));
    assert_eq!(result, Err(RenameError::DuplicateName));
    // both allocations keep their display keys
    assert_eq!(pool.find_by_name("test"), Some(b4(10, 10, 0, 0, 28)));
    assert_eq!(pool.find_by_name("10.10.0.16/28"), Some(other));
}

#[test]
fn rename_no_such_object() {
    let mut pool = MemorySpace::new(b4(10, 10, 0, 0, 16));
    let cidr = b4(10, 10, 0, 0, 28);
    let result = pool.rename(&cidr, Some("test"));
    assert_eq!(result, Err(RenameError::NoSuchObject));
}

#[test]
fn resolve_unknown_identifier() {
    let pool = MemorySpace::new(b4(10, 10, 0, 0, 16));
    assert_eq!(pool.resolve_identifier("bad-cidr"), None);
}

#[test]
fn claim_then_claim_again() {
    // claiming a block on the untouched base succeeds; claiming the same
    // block again reports no space
    let mut pool = MemorySpace::new(b4(10, 10, 0, 0, 16));
    let cidr = b4(10, 10, 0, 0, 28);
    assert_eq!(pool.claim(&cidr, None), Ok(()));
    assert_eq!(pool.claim(&cidr, None), Err(AllocateError::NoSpaceAvailable));
}

#[test]
fn max_available_after_two_allocations() {
    let mut pool = MemorySpace::new(b4(10, 10, 0, 0, 16));
    pool.allocate(4, None).unwrap();
    pool.allocate(6, None).unwrap();
    assert_eq!(pool.max_available_bits(), 15);
}

#[test]
fn lowest_fit_prefers_low_half() {
    // a narrow then a wide request: the wide one lands past the split
    // that holds the narrow one
    let mut pool = MemorySpace::new(b4(10, 10, 0, 0, 16));
    assert_eq!(pool.allocate(4, None).unwrap(), b4(10, 10, 0, 0, 28));
    assert_eq!(pool.allocate(8, None).unwrap(), b4(10, 10, 1, 0, 24));
}

#[test]
fn allocations_do_not_overlap() {
    let mut pool = MemorySpace::new(b4(10, 10, 0, 0, 16));
    pool.allocate(4, None).unwrap();
    pool.claim(&b4(10, 10, 0, 64, 26), Some("mid")).unwrap();
    pool.allocate(6, None).unwrap();
    let cidrs = pool.cidrs();
    assert_eq!(cidrs.len(), 3);
    for i in 0..cidrs.len() {
        for j in 0..cidrs.len() {
            if i != j {
                let a = &cidrs[i];
                let b = &cidrs[j];
                assert!(!a.contains_block(b) && !b.contains_block(a));
            }
        }
    }
    assert_eq!(pool.names().len(), 3);
    assert_eq!(pool.named_count(), 1);
    assert_eq!(pool.allocated_count(), 3);
}

#[test]
fn block_constructors() {
    assert_eq!(IpBlock::v4(10, 20, 0, 1, 24), None);
    assert_eq!(IpBlock::v4(10, 20, 0, 0, 33), None);
    assert_eq!(IpBlock::v6(&[1, 2, 3, 4, 10, 20, 0, 1], 112), None);
    let b = b4(10, 20, 0, 0, 24);
    assert_eq!(b.host_len(), 8);
    assert!(b.contains_block(&b4(10, 20, 0, 16, 28)));
    assert!(!b.contains_block(&b4(10, 20, 1, 0, 28)));
    assert_eq!(b.split_low(), b4(10, 20, 0, 0, 25));
    assert_eq!(b.split_high(), b4(10, 20, 0, 128, 25));
}
