use csearch::eval::{intersect, union};
use csearch::files::{batches, sift, skip_name};
use csearch::layout::{MAGIC, TRAILER_LEN};
use csearch::query::Query;
use csearch::read::{Index, IndexError};
use csearch::regexp::regexp_query;
use csearch::results::NameFilter;
use csearch::trigram::{pack, Skip};
use csearch::write::{analyze_file, build_index, Builder, Built, Source};

fn source(path: &str, data: &[u8]) -> Source {
    Source { path: path.to_string(), data: Some(data.to_vec()) }
}

fn build(roots: &[&str], files: &[Source]) -> Built {
    build_index(roots.iter().map(|r| r.to_string()).collect(), files, 0)
}

fn fresh() -> Vec<u8> {
    let files: Vec<Source> = (0..5)
        .map(|i| source(&format!("/root/f{i}.txt"), format!("hello world {i}\n").as_bytes()))
        .collect();
    build(&["/root"], &files).index
}

fn open_err(name: &str, bytes: &[u8]) -> String {
    match Index::open(bytes) {
        Ok(_) => panic!("{name}: damaged index opened successfully"),
        Err(e) => e.message(name),
    }
}

fn rd_u64(b: &[u8], at: usize) -> usize {
    u64::from_le_bytes(b[at..at + 8].try_into().unwrap()) as usize
}

#[test]
fn intact_index_opens() {
    let bytes = fresh();
    assert_eq!(Index::open(&bytes).unwrap().num_files(), 5);
}

#[test]
fn truncation_is_reported() {
    let bytes = fresh();
    let n = bytes.len();
    for cut in [0, 5, MAGIC.len(), MAGIC.len() + 10, n / 2, n - TRAILER_LEN - 1, n - 8, n - 1] {
        let err = open_err(&format!("cut{cut}"), &bytes[..cut]);
        assert!(
            err.contains("cindex --reset") || err.contains("not a csearch-rs index"),
            "cut at {cut}: {err}"
        );
    }
}

#[test]
fn every_trailer_offset_is_validated() {
    let bytes = fresh();
    let t = bytes.len() - TRAILER_LEN;
    for field in 0..5 {
        for bad in [bytes.len() as u64 + 1000, u64::MAX / 2, 0] {
            let mut b = bytes.clone();
            b[t + field * 8..t + field * 8 + 8].copy_from_slice(&bad.to_le_bytes());
            let err = open_err(&format!("off{field}_{bad}"), &b);
            assert!(err.contains("cindex --reset"), "offset {field} = {bad}: {err}");
        }
    }
}

#[test]
fn counts_are_validated() {
    let bytes = fresh();
    let t = bytes.len() - TRAILER_LEN;
    for (at, label) in [(t + 40, "nfiles"), (t + 44, "ntrigrams")] {
        let mut b = bytes.clone();
        b[at..at + 4].copy_from_slice(&u32::MAX.to_le_bytes());
        let err = open_err(label, &b);
        assert!(err.contains("cindex --reset"), "{label}: {err}");
    }
}

#[test]
fn index_entries_are_validated() {
    let bytes = fresh();
    let t = bytes.len() - TRAILER_LEN;
    let nameidx_off = rd_u64(&bytes, t + 16);
    let postidx_off = rd_u64(&bytes, t + 32);

    let mut b = bytes.clone();
    b[nameidx_off..nameidx_off + 4].copy_from_slice(&u32::MAX.to_le_bytes());
    let err = open_err("nameidx", &b);
    assert!(err.contains("cindex --reset"), "{err}");

    let mut b = bytes.clone();
    b[postidx_off + 8..postidx_off + 16].copy_from_slice(&(u64::MAX / 4).to_le_bytes());
    let err = open_err("postidx", &b);
    assert!(err.contains("cindex --reset"), "{err}");

    // Unsorted trigrams would make the binary search meaningless.
    let mut b = bytes.clone();
    b[postidx_off..postidx_off + 4].copy_from_slice(&u32::MAX.to_le_bytes());
    let err = open_err("unsorted", &b);
    assert!(err.contains("cindex --reset"), "{err}");
}

#[test]
fn other_format_version_is_explained() {
    let bytes = fresh();
    let mut b = bytes.clone();
    b[MAGIC.len() - 2] = b'9'; // "csearch-rs index 1\n" -> "... index 9\n"
    let err = open_err("version", &b);
    assert!(err.contains("format version"), "{err}");

    let err = open_err("garbage", b"hello there");
    assert!(err.contains("not a csearch-rs index"), "{err}");
}

#[test]
fn every_damage_has_its_error() {
    let bytes = fresh();
    let n = bytes.len();
    let t = n - TRAILER_LEN;
    let nameidx_off = rd_u64(&bytes, t + 16);
    let postidx_off = rd_u64(&bytes, t + 32);
    let damaged = |at: usize, with: &[u8]| {
        let mut b = bytes.clone();
        b[at..at + with.len()].copy_from_slice(with);
        Index::open(&b).unwrap_err()
    };
    assert_eq!(Index::open(b"hello").unwrap_err(), IndexError::NotAnIndex);
    assert_eq!(damaged(17, b"2"), IndexError::OtherVersion);
    assert_eq!(Index::open(&bytes[..19]).unwrap_err(), IndexError::Truncated);
    assert_eq!(damaged(n - 1, b"2"), IndexError::BadTrailer);
    assert_eq!(damaged(t, &20u64.to_le_bytes()), IndexError::OutOfOrder);
    assert_eq!(damaged(t + 40, &4u32.to_le_bytes()), IndexError::SizesDisagree);
    assert_eq!(damaged(nameidx_off, &[0xff; 4]), IndexError::NameOutOfRange);
    assert_eq!(damaged(postidx_off + 8, &[0xff; 8]), IndexError::PostingOutOfRange);
    assert_eq!(damaged(postidx_off, &[0xff; 4]), IndexError::NotSorted);
    assert_eq!(
        IndexError::Truncated.message("i"),
        "i: file is truncated -- the index is corrupt; run `cindex --reset` and re-index"
    );
    assert_eq!(
        IndexError::OtherVersion.message("i"),
        "i: written by a different index format version -- run `cindex --reset` and re-index"
    );
}

fn small() -> Built {
    let below: [(&str, &[u8]); 6] = [
        (".hidden", b"hello hidden"), // skipped: dotfile
        ("a.txt", b"hello world\nfoo bar baz\n"),
        ("b.txt", b"goodbye world\n"),
        ("bin.dat", b"abc\0def"), // skipped: NUL
        ("sub/c.rs", b"fn main() { println!(\"hello\"); }\n"),
        ("tiny", b"hi"), // indexed, no trigrams
    ];
    let seen = below
        .iter()
        .map(|f| (f, f.0.split('/').any(skip_name), Some((true, f.1.len() as u64))))
        .collect();
    let (kept, large) = sift(seen, 1 << 30);
    assert!(large.is_empty());
    assert!(!kept.iter().any(|(f, _)| f.0 == ".hidden"));
    let files: Vec<Source> =
        kept.iter().map(|(f, _)| source(&format!("/src/{}", f.0), f.1)).collect();
    build(&["/src"], &files)
}

#[test]
fn build_and_query() {
    let built = small();
    assert_eq!(built.stats.files_indexed, 4);
    assert_eq!(built.stats.files_skipped, 1);

    let idx = Index::open(&built.index).unwrap();
    assert_eq!(idx.num_files(), 4);
    assert_eq!(idx.roots().len(), 1);
    let names: Vec<&str> = (0..idx.num_files()).map(|i| idx.name(i)).collect();
    assert!(names.iter().any(|n| n.ends_with("a.txt")));
    assert!(names.iter().any(|n| n.ends_with("c.rs")));
    assert!(!names.iter().any(|n| n.ends_with(".hidden")));

    let hel = pack(b"hel");
    assert_eq!(idx.posting_count(hel), 2);
    let ids = idx.posting_list(hel);
    assert_eq!(ids.len(), 2);
    assert!(idx.name(ids[0]).ends_with("a.txt"));
    assert!(idx.name(ids[1]).ends_with("c.rs"));

    let q = regexp_query("hello wor", false).unwrap();
    let files: Vec<&str> = idx.posting_query(&q).into_iter().map(|i| idx.name(i)).collect();
    assert_eq!(files.len(), 1);
    assert!(files[0].ends_with("a.txt"));

    let q = regexp_query("world", false).unwrap();
    assert_eq!(idx.posting_query(&q).len(), 2);

    let q = regexp_query("hello|goodbye", false).unwrap();
    assert_eq!(idx.posting_query(&q).len(), 3);

    let q = regexp_query("nothing_here", false).unwrap();
    assert!(idx.posting_query(&q).is_empty());

    // Unconstrained queries return every file.
    assert_eq!(idx.posting_query(&Query::all()).len(), 4);
}

#[test]
fn what_was_written_is_read_back() {
    let built = small();
    let idx = Index::open(&built.index).unwrap();
    assert_eq!(idx.roots(), vec!["/src"]);
    assert_eq!(idx.name(2), "/src/sub/c.rs");
    assert_eq!(idx.name(4), "");
    assert_eq!(idx.posting_list(pack(b"wor")), vec![0, 1]);
    assert_eq!(idx.posting_list(pack(b"zzz")), Vec::<u32>::new());
    assert_eq!(idx.posting_count(pack(b"zzz")), 0);
    assert_eq!(idx.num_trigrams() as usize, built.stats.distinct_trigrams);
    assert_eq!(built.stats.index_bytes as usize, built.index.len());
    assert_eq!(built.stats.bytes_indexed, 24 + 14 + 33 + 2);
    assert_eq!(built.stats.files_seen, 5);
    assert_eq!(&built.index[..19], MAGIC.as_bytes());
}

#[test]
fn counters_agree_with_the_index() {
    let built = small();
    let idx = Index::open(&built.index).unwrap();
    let stats = built.stats;
    assert_eq!(stats.files_seen, stats.files_indexed + stats.files_skipped);
    assert_eq!(idx.num_files() as usize, stats.files_indexed);
    let entries: u64 = (0..1u32 << 24).map(|t| idx.posting_count(t) as u64).sum();
    assert_eq!(entries, stats.posting_entries);
    let world = idx.posting_list(pack(b"wor"));
    assert_eq!(world, vec![0, 1]);
    assert_eq!(world.len(), idx.posting_count(pack(b"wor")) as usize);
}

#[test]
fn batches_change_nothing() {
    let contents: [&[u8]; 5] = [b"hello world\n", b"a\0b", b"hello\n", b"", b"other words\n"];
    let files: Vec<Source> = contents
        .iter()
        .enumerate()
        .map(|(i, c)| source(&format!("/src/{i}"), c))
        .collect();
    let sizes: Vec<u64> = contents.iter().map(|c| c.len() as u64).collect();
    let whole = build(&["/src"], &files);
    for batch_bytes in [0, 1, 15, 20, u64::MAX] {
        let mut builder = Builder::new(files.len(), 0);
        let mut seen = csearch::bitmap::Bitmap::new();
        for (start, end) in batches(&sizes, batch_bytes) {
            for file in &files[start..end] {
                match analyze_file(&mut seen, &file.path, file.data.as_ref().unwrap()) {
                    Ok((name, tris, len)) => builder.add_file(name, &tris, len),
                    Err(_) => builder.skip(),
                }
            }
        }
        let (index, stats) = builder.finish(&["/src".to_string()]);
        assert_eq!(index, whole.index);
        assert_eq!(stats, whole.stats);
    }
}

#[test]
fn selections_follow_the_filter() {
    let built = small();
    let idx = Index::open(&built.index).unwrap();
    let every = idx.select(None);
    assert_eq!(every, vec![0, 1, 2, 3]);
    let q = regexp_query("hello", false).unwrap();
    assert_eq!(idx.select(Some(&q)), vec![0, 2]);
    let (found, ids) = idx.find("hello", false, false).unwrap();
    assert_eq!((found.unwrap().to_string(), ids), (q.to_string(), vec![0, 2]));
    let (none, ids) = idx.find("hello(", false, true).unwrap();
    assert!(none.is_none() && ids == every);
    assert!(idx.find("hello(", false, false).unwrap_err().starts_with("bad regexp: "));
    let rs = NameFilter::new(Some("\\.rs$")).unwrap();
    assert_eq!(idx.names_for(&every, &rs), vec!["/src/sub/c.rs"]);
    let any = NameFilter::new(None).unwrap();
    assert_eq!(idx.names_for(&[1, 3], &any), vec!["/src/b.txt", "/src/tiny"]);
}

#[test]
fn nested_root_is_indexed_once() {
    let built = build(
        &["/root/sub", "/root"],
        &[source("/root/a.txt", b"needle\n"), source("/root/sub/b.txt", b"needle\n")],
    );
    assert_eq!(built.stats.files_indexed, 2);
    assert_eq!(built.dropped, vec![("/root/sub".to_string(), "/root".to_string())]);
    let idx = Index::open(&built.index).unwrap();
    assert_eq!(idx.roots().len(), 1, "the nested root must not be stored");
    assert_eq!(idx.posting_count(pack(b"nee")), 2);
}

#[test]
fn too_large_files_are_counted_as_skipped() {
    let contents = [("/root/small.txt", "tiny\n".to_string()), ("/root/big.txt", "x".repeat(64))];
    let seen = contents.iter().map(|c| (c, false, Some((true, c.1.len() as u64)))).collect();
    let (kept, large) = sift(seen, 16);
    let files: Vec<Source> = kept.iter().map(|(c, _)| source(c.0, c.1.as_bytes())).collect();
    let stats = build_index(vec!["/root".to_string()], &files, large.len()).stats;
    assert_eq!(
        (stats.files_indexed, stats.files_skipped, stats.files_seen),
        (1, 1, 2)
    );
}

#[test]
fn unreadable_files_are_counted_as_skipped() {
    let files = [Source { path: "/x".to_string(), data: None }, source("/y", b"abcd")];
    let built = build(&["/"], &files);
    assert_eq!((built.stats.files_indexed, built.stats.files_skipped), (1, 1));
    assert_eq!(built.stats.posting_entries, 2);
}

#[test]
fn builders_take_files_one_by_one() {
    let mut seen = csearch::bitmap::Bitmap::new();
    let (name, tris, len) = analyze_file(&mut seen, r"\\?\C:\a", b"abcd").unwrap();
    assert_eq!((name.as_str(), len), (r"C:\a", 4));
    assert_eq!(analyze_file(&mut seen, "x", b"\0"), Err(Skip::Binary));
    let mut b = Builder::new(2, 0);
    b.add_file(name, &tris, len);
    b.skip();
    assert_eq!(b.progress(), (1, 2));
    let (bytes, stats) = b.finish(&["C:\\".to_string()]);
    assert_eq!((stats.files_indexed, stats.files_skipped), (1, 1));
    let idx = Index::open(&bytes).unwrap();
    assert_eq!(idx.name(0), r"C:\a");
}

#[test]
fn damaged_lists_end_early() {
    let mut bytes = build(&["/r"], &[source("/r/a", b"abc"), source("/r/b", b"abc")]).index;
    let t = bytes.len() - TRAILER_LEN;
    let posts = rd_u64(&bytes, t + 24);
    assert_eq!(&bytes[posts..posts + 2], &[0, 1]);
    bytes[posts + 1] = 9;
    assert_eq!(Index::open(&bytes).unwrap().posting_list(pack(b"abc")), vec![0]);
    // An id that is repeated is named once.
    bytes[posts + 1] = 0;
    assert_eq!(Index::open(&bytes).unwrap().posting_list(pack(b"abc")), vec![0]);
    bytes[posts] = 0x80;
    bytes[posts + 1] = 0x80;
    let idx = Index::open(&bytes).unwrap();
    assert_eq!(idx.posting_list(pack(b"abc")), Vec::<u32>::new());
    assert_eq!(idx.posting_count(pack(b"abc")), 2);
}

#[test]
fn lists_of_a_damaged_index_ascend() {
    // Six bytes of postings for the first trigram: 1, then a step of 2^32 - 1.
    let mut bytes = build(
        &["/r"],
        &[source("/r/a", b"abcdefgh"), source("/r/b", b"abcdefgh")],
    )
    .index;
    let t = bytes.len() - TRAILER_LEN;
    let posts = rd_u64(&bytes, t + 24);
    bytes[posts..posts + 6].copy_from_slice(&[0x01, 0xff, 0xff, 0xff, 0xff, 0x0f]);
    let idx = Index::open(&bytes).unwrap();
    assert_eq!(idx.posting_count(pack(b"abc")), 2);
    assert_eq!(idx.posting_list(pack(b"abc")), vec![1]);
    let q = Query::and_trigrams(vec![pack(b"abc")]);
    assert_eq!(idx.posting_query(&q), vec![1]);
}

#[test]
fn repeated_ids_are_passed_over() {
    let files: Vec<Source> = (0..10).map(|i| source(&format!("/r/{i}"), b"abc")).collect();
    let mut bytes = build(&["/r"], &files).index;
    let t = bytes.len() - TRAILER_LEN;
    let (posts, entry) = (rd_u64(&bytes, t + 24), rd_u64(&bytes, t + 32));
    bytes[posts..posts + 3].copy_from_slice(&[3, 0, 2]);
    bytes[entry + 4..entry + 8].copy_from_slice(&3u32.to_le_bytes());
    let idx = Index::open(&bytes).unwrap();
    assert_eq!(idx.posting_count(pack(b"abc")), 3);
    assert_eq!(idx.posting_list(pack(b"abc")), vec![3, 5]);
}

#[test]
fn evaluation_within_a_list() {
    let built = small();
    let idx = Index::open(&built.index).unwrap();
    let q = regexp_query("hello|goodbye", false).unwrap();
    let all = idx.eval(&q, None);
    for r in [vec![], vec![1, 3], vec![0, 1, 2, 3]] {
        assert_eq!(idx.eval(&q, Some(&r)), intersect(&r, &all));
    }
    // The count of a trigram is the length of its list.
    for t in [b"hel", b"wor", b"zzz"] {
        assert_eq!(idx.posting_count(pack(t)) as usize, idx.posting_list(pack(t)).len());
    }
}

#[test]
fn sorted_lists_meet_and_join() {
    assert_eq!(intersect(&[1, 3, 5], &[2, 3, 5, 7]), vec![3, 5]);
    assert_eq!(union(&[1, 3, 5], &[2, 3, 5, 7]), vec![1, 2, 3, 5, 7]);
    assert_eq!(intersect(&[], &[1]), Vec::<u32>::new());
}
