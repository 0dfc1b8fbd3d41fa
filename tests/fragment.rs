use payload_dumper::fragment::{Extent, Fragment, FragmentError, FragmentFile, SeekError, SeekPos};
use payload_dumper::section::SectionFile;

fn sample() -> Vec<Fragment> {
    vec![
        Fragment { offset: 0, size: 5 },
        Fragment { offset: 20, size: 2 },
        Fragment { offset: 10, size: 3 },
    ]
}

#[test]
fn fragment() {
    let mut vec = (0..31).collect::<Vec<u8>>();
    let fragments = sample();
    let mut fvec = FragmentFile::new(&fragments).unwrap();

    let mut buf = vec![0; 20];
    let read = fvec.read(&vec, &mut buf);
    assert_eq!(read, 10);
    println!("{:?}", buf);

    fvec.seek(SeekPos::Start(0)).unwrap();
    let written = fvec.write(&mut vec, &[9, 8, 7, 6, 5, 4, 3, 2, 1, 0, 0, 0]);
    assert_eq!(written, 10);
    assert_eq!(&vec[0..5], &[9, 8, 7, 6, 5]);
    assert_eq!(&vec[20..22], &[4, 3]);
    assert_eq!(&vec[10..13], &[2, 1, 0]);
}

#[test]
fn read_follows_fragment_order() {
    let vec = (0..31).collect::<Vec<u8>>();
    let mut f = FragmentFile::new(&sample()).unwrap();
    let mut buf = vec![0xff; 12];
    assert_eq!(f.read(&vec, &mut buf), 10);
    assert_eq!(&buf[..10], &[0, 1, 2, 3, 4, 20, 21, 10, 11, 12]);
    assert_eq!(&buf[10..], &[0xff, 0xff]);
    assert!(f.eof());
    assert_eq!(f.pos(), 10);
    let mut more = vec![0; 4];
    assert_eq!(f.read(&vec, &mut more), 0);
}

#[test]
fn transfers_in_small_pieces_add_up_to_size() {
    let vec = (0..31).collect::<Vec<u8>>();
    let mut f = FragmentFile::new(&sample()).unwrap();
    let mut total = 0;
    for want in [3usize, 1, 4, 7, 2] {
        let mut buf = vec![0; want];
        total += f.read(&vec, &mut buf);
    }
    assert_eq!(total, 10);
    assert_eq!(total as u64, f.size());
}

#[test]
fn seek_lands_inside_the_right_fragment() {
    let mut vec = (0..31).collect::<Vec<u8>>();
    let mut f = FragmentFile::new(&sample()).unwrap();
    assert_eq!(f.seek(SeekPos::Start(6)), Ok(6));
    assert_eq!(f.inner_pos(), 21);
    let mut buf = vec![0; 2];
    assert_eq!(f.read(&vec, &mut buf), 2);
    assert_eq!(buf, vec![21, 10]);
    assert_eq!(f.seek(SeekPos::End(-1)), Ok(9));
    assert_eq!(f.inner_pos(), 12);
    assert_eq!(f.write(&mut vec, &[99, 98]), 1);
    assert_eq!(vec[12], 99);
    assert_eq!(f.seek(SeekPos::Current(-4)), Ok(6));
    assert_eq!(f.seek(SeekPos::Start(5)), Ok(5));
    assert_eq!(f.inner_pos(), 20);
}

#[test]
fn seek_past_end_is_refused() {
    let mut f = FragmentFile::new(&sample()).unwrap();
    assert_eq!(f.seek(SeekPos::Start(3)), Ok(3));
    assert_eq!(f.seek(SeekPos::Start(11)), Err(SeekError::OutOfRange));
    assert_eq!(f.seek(SeekPos::Current(-4)), Err(SeekError::Invalid));
    assert_eq!(f.pos(), 3);
    assert_eq!(f.seek(SeekPos::End(0)), Ok(10));
    assert!(f.eof());
}

#[test]
fn zero_size_fragments_are_skipped() {
    let vec = (0..31).collect::<Vec<u8>>();
    let frags = vec![
        Fragment { offset: 7, size: 0 },
        Fragment { offset: 3, size: 2 },
        Fragment { offset: 30, size: 0 },
        Fragment { offset: 0, size: 1 },
    ];
    let mut f = FragmentFile::new(&frags).unwrap();
    assert_eq!(f.size(), 3);
    let mut buf = vec![0; 8];
    assert_eq!(f.read(&vec, &mut buf), 3);
    assert_eq!(&buf[..3], &[3, 4, 0]);
    assert_eq!(f.seek(SeekPos::Start(2)), Ok(2));
    assert_eq!(f.inner_pos(), 0);
}

#[test]
fn empty_fragment_list_is_refused() {
    assert_eq!(FragmentFile::new(&[]).err(), Some(FragmentError::Empty));
    let big = vec![Fragment { offset: u64::MAX, size: 1 }];
    assert_eq!(FragmentFile::new(&big).err(), Some(FragmentError::Overflow));
    assert_eq!(FragmentFile::new_from_extents(&[], 4096).err(), Some(FragmentError::Empty));
}

#[test]
fn extents_scale_by_block_size() {
    let e = Extent { start_block: 3, num_blocks: 2 };
    assert_eq!(Fragment::from_extent(&e, 4), Some(Fragment { offset: 12, size: 8 }));
    assert_eq!(Fragment::from_extent(&Extent { start_block: u64::MAX, num_blocks: 1 }, 2), None);
    let f = FragmentFile::new_from_extents(&[e, Extent { start_block: 0, num_blocks: 1 }], 4).unwrap();
    assert_eq!(f.size(), 12);
    assert_eq!(f.max_end(), 20);
}

#[test]
fn section_stays_inside_its_window() {
    let mut backing = (0..20).collect::<Vec<u8>>();
    let mut s = SectionFile::new(5, 4).unwrap();
    let mut buf = vec![0; 10];
    assert_eq!(s.read(&backing, &mut buf), 4);
    assert_eq!(&buf[..4], &[5, 6, 7, 8]);
    assert_eq!(buf[4], 0);
    assert_eq!(s.read(&backing, &mut buf), 0);
    assert_eq!(s.seek(SeekPos::Start(2)), Ok(2));
    assert_eq!(s.write(&mut backing, &[100, 101, 102, 103]), 2);
    assert_eq!(&backing[4..11], &[4, 5, 6, 100, 101, 9, 10]);
    assert_eq!(s.write(&mut backing, &[1]), 0);
    assert_eq!(s.seek(SeekPos::End(-1)), Ok(3));
    assert_eq!(s.inner_pos(), 8);
    assert_eq!(s.seek(SeekPos::Current(-5)), Err(SeekError::Invalid));
    assert!(SectionFile::new(u64::MAX, 1).is_none());
    let e = SectionFile::new_from_extent(&Extent { start_block: 2, num_blocks: 3 }, 10).unwrap();
    assert_eq!(e.inner_pos(), 20);
    assert_eq!(e.len(), 30);
}

#[test]
fn section_is_cut_at_the_end_of_the_backing() {
    let mut backing = (0..8).collect::<Vec<u8>>();
    let mut s = SectionFile::new(5, 10).unwrap();
    let mut buf = vec![0; 6];
    assert_eq!(s.read(&backing, &mut buf), 3);
    assert_eq!(&buf[..4], &[5, 6, 7, 0]);
    assert_eq!(s.pos(), 3);
    assert_eq!(s.read(&backing, &mut buf), 0);
    assert_eq!(s.seek(SeekPos::Start(1)), Ok(1));
    assert_eq!(s.write(&mut backing, &[40, 41, 42, 43]), 2);
    assert_eq!(backing, vec![0, 1, 2, 3, 4, 5, 40, 41]);
    let mut far = SectionFile::new(100, 4).unwrap();
    assert_eq!(far.read(&backing, &mut buf), 0);
    assert_eq!(far.write(&mut backing, &[1]), 0);
}
