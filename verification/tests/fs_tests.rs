use oscore::bitmap::Bitmap;
use oscore::block_cache::{block_cache_sync_all, BlockCacheManager};
use oscore::block_dev::MemoryDisk;
use oscore::efs::EasyFileSystem;
use oscore::frame_allocator::FrameAllocator;
use oscore::id::RecycleAllocator;
use oscore::vfs::Inode;

fn fresh_fs(total: u32, ib: u32) -> EasyFileSystem {
    EasyFileSystem::create(MemoryDisk::new(total as usize), total, ib)
}

#[test]
fn frame_round_trip() {
    let mut fa = FrameAllocator::new(100, 110);
    let p = fa.allocate().unwrap();
    assert_eq!(p.0, 100);
    fa.dealloc(p);
    let q = fa.allocate().unwrap();
    assert_eq!(q.0, 100);
    let r = fa.allocate().unwrap();
    assert_eq!(r.0, 101);
}

#[test]
fn recycle_allocator_reuses_lifo() {
    let mut ra = RecycleAllocator::new();
    let a = ra.allocate();
    let b = ra.allocate();
    assert_eq!((a, b), (0, 1));
    ra.dealloc(a);
    assert_eq!(ra.allocate(), 0);
    assert_eq!(ra.allocate(), 2);
}

#[test]
fn bitmap_lowest_bit_and_round_trip() {
    let disk = MemoryDisk::new(8);
    let mut cache = BlockCacheManager::new(disk);
    let bm = Bitmap::new(1, 2);
    assert_eq!(bm.allocate(&mut cache), Some(0));
    assert_eq!(bm.allocate(&mut cache), Some(1));
    assert_eq!(bm.allocate(&mut cache), Some(2));
    bm.dealloc(&mut cache, 1);
    // the freed index is the lowest clear bit again
    assert_eq!(bm.allocate(&mut cache), Some(1));
    assert_eq!(bm.allocate(&mut cache), Some(3));
    assert_eq!(bm.maximum(), 2 * 4096);
}

#[test]
fn block_cache_modify_then_read_and_eviction() {
    let disk = MemoryDisk::new(64);
    let mut cache = BlockCacheManager::new(disk);
    let data = vec![7u8, 8, 9];
    cache.modify_block_range(5, 100, &data);
    let back = cache.read_block_range(5, 100, 3);
    assert_eq!(back, vec![7, 8, 9]);
    // touch more blocks than the cache holds; the dirty slot is
    // written back on eviction and reloads intact
    for b in 6..40usize {
        let _ = cache.read_block_range(b, 0, 1);
    }
    let back2 = cache.read_block_range(5, 100, 3);
    assert_eq!(back2, vec![7, 8, 9]);
    assert!(cache.queue.len() <= 16);
    block_cache_sync_all(&mut cache);
    assert_eq!(cache.disk.blocks[5][100], 7);
}

#[test]
fn efs_create_open_and_magic() {
    let mut fs = fresh_fs(4096, 1);
    block_cache_sync_all(&mut fs.cache);
    let disk = fs.cache.disk;
    let fs2 = EasyFileSystem::open(disk).expect("image should open");
    assert_eq!(fs2.inode_bitmap.blocks, 1);
    // a corrupted magic number refuses to open
    let mut raw = MemoryDisk::new(4096);
    raw.write_block(0, &vec![0u8; 512]);
    assert!(EasyFileSystem::open(raw).is_none());
}

#[test]
fn write_then_read_round_trip() {
    let mut fs = fresh_fs(4096, 1);
    let root = Inode::root(&fs);
    let id = root.create(&mut fs, "filea").expect("create");
    let ino = Inode::from_id(&fs, id);
    let greet = b"Hello, world!".to_vec();
    let n = ino.write_at(&mut fs, 0, greet.as_slice());
    assert_eq!(n, greet.len());
    let back = ino.read_at(&mut fs, 0, 233);
    assert_eq!(back, greet);
    // an offset write leaves other bytes in place
    let patch = b"XYZ".to_vec();
    ino.write_at(&mut fs, 7, patch.as_slice());
    let back2 = ino.read_at(&mut fs, 0, 13);
    assert_eq!(&back2[..7], b"Hello, ");
    assert_eq!(&back2[7..10], b"XYZ");
}

#[test]
fn directory_unique_names_and_ls() {
    let mut fs = fresh_fs(4096, 1);
    let root = Inode::root(&fs);
    assert!(root.find(&mut fs, "filea").is_none());
    let a = root.create(&mut fs, "filea").expect("create a");
    let b = root.create(&mut fs, "fileb").expect("create b");
    assert_ne!(a, b);
    // a second create of the same name fails, and find sees it once
    assert!(root.create(&mut fs, "filea").is_none());
    assert_eq!(root.find(&mut fs, "filea"), Some(a));
    assert_eq!(root.find(&mut fs, "fileb"), Some(b));
    let names = root.ls(&mut fs);
    assert_eq!(names.len(), 2);
    assert_eq!(names[0], b"filea".to_vec());
    assert_eq!(names[1], b"fileb".to_vec());
}

#[test]
fn pack_two_files_and_read_back() {
    let mut fs = fresh_fs(16 * 2048, 1);
    let root = Inode::root(&fs);
    let one = vec![0xabu8; 1];
    let five_k = {
        let mut v = Vec::new();
        for i in 0..5000usize {
            v.push((i % 251) as u8);
        }
        v
    };
    let a = root.create(&mut fs, "a").unwrap();
    Inode::from_id(&fs, a).write_at(&mut fs, 0, one.as_slice());
    let b = root.create(&mut fs, "b").unwrap();
    Inode::from_id(&fs, b).write_at(&mut fs, 0, five_k.as_slice());
    // reopen from the flushed image and read both back
    block_cache_sync_all(&mut fs.cache);
    let mut fs2 = EasyFileSystem::open(fs.cache.disk).unwrap();
    let root2 = Inode::root(&fs2);
    let names = root2.ls(&mut fs2);
    assert_eq!(names, vec![b"a".to_vec(), b"b".to_vec()]);
    let ra = root2.find(&mut fs2, "a").unwrap();
    let rb = root2.find(&mut fs2, "b").unwrap();
    assert_eq!(Inode::from_id(&fs2, ra).read_at(&mut fs2, 0, 10), one);
    assert_eq!(Inode::from_id(&fs2, rb).read_at(&mut fs2, 0, 6000), five_k);
}

#[test]
fn growth_across_pointer_tiers() {
    let mut fs = fresh_fs(16 * 2048, 1);
    let root = Inode::root(&fs);
    let id = root.create(&mut fs, "big").unwrap();
    let ino = Inode::from_id(&fs, id);
    let direct = vec![1u8; 12 * 512];
    let ind1 = vec![2u8; 128 * 512];
    let ind2 = vec![3u8; 64 * 512];
    ino.write_at(&mut fs, 0, direct.as_slice());
    ino.write_at(&mut fs, 12 * 512, ind1.as_slice());
    ino.write_at(&mut fs, (12 + 128) * 512, ind2.as_slice());
    // random-access reads across the tier boundaries
    assert_eq!(ino.read_at(&mut fs, 11 * 512 + 100, 4), vec![1, 1, 1, 1]);
    let cross = ino.read_at(&mut fs, 12 * 512 - 2, 4);
    assert_eq!(cross, vec![1, 1, 2, 2]);
    let cross2 = ino.read_at(&mut fs, (12 + 128) * 512 - 2, 4);
    assert_eq!(cross2, vec![2, 2, 3, 3]);
    assert_eq!(ino.size(&mut fs) as usize, (12 + 128 + 64) * 512);
}
