use image_compressor::compressor::{compress_bytes, CompressError, Compressor, Factor};
use image_compressor::crawler::get_file_list;
use image_compressor::fs::Fs;
use image_compressor::path::stem;
use image_compressor::FolderCompressor;

fn p(parts: &[&str]) -> Vec<String> {
    parts.iter().map(|s| s.to_string()).collect()
}

fn png_bytes() -> Vec<u8> {
    let img = image::RgbImage::from_pixel(16, 16, image::Rgb([10, 200, 30]));
    let mut buf = std::io::Cursor::new(Vec::new());
    image::DynamicImage::ImageRgb8(img)
        .write_to(&mut buf, image::ImageFormat::Png)
        .unwrap();
    buf.into_inner()
}

fn jpg_bytes() -> Vec<u8> {
    let img = image::RgbImage::from_pixel(32, 16, image::Rgb([120, 20, 90]));
    let mut buf = std::io::Cursor::new(Vec::new());
    image::DynamicImage::ImageRgb8(img)
        .write_to(&mut buf, image::ImageFormat::Jpeg)
        .unwrap();
    buf.into_inner()
}

fn dest_stems(fs: &Fs, root: &[&str]) -> Vec<String> {
    let mut stems: Vec<String> = get_file_list(fs, &p(root))
        .unwrap()
        .iter()
        .map(|path| stem(path.last().unwrap()))
        .collect();
    stems.sort();
    stems.dedup();
    stems
}

#[test]
fn compress_bytes_produces_real_jpeg() {
    let out = compress_bytes(&png_bytes(), &Factor::default()).unwrap();
    // the encoder must hand back a JPEG stream, not the input
    assert_eq!(&out[0..2], &[0xff, 0xd8]);
    assert_ne!(out, png_bytes());
    let round = image::load_from_memory(&out).unwrap();
    assert_eq!(round.width(), 12);
    assert_eq!(round.height(), 12);
}

#[test]
fn compress_bytes_scales_by_the_factor() {
    let half = Factor::new(8000, 500).unwrap();
    let out = compress_bytes(&jpg_bytes(), &half).unwrap();
    let round = image::load_from_memory(&out).unwrap();
    assert_eq!(round.width(), 16);
    assert_eq!(round.height(), 8);
}

#[test]
fn compress_bytes_rejects_non_images() {
    let text = b"Hello, World!".to_vec();
    assert_eq!(compress_bytes(&text, &Factor::default()), Err(CompressError::UnsupportedFormat));
}

#[test]
fn single_file_respects_existing_target() {
    // An existing destination file fails the job with AlreadyExists and
    // stays byte-for-byte untouched.
    let mut fs = Fs::new();
    assert!(fs.create_dir_all(&p(&["s"])));
    assert!(fs.create_dir_all(&p(&["d"])));
    fs.write_file(&p(&["s", "a.png"]), png_bytes());
    fs.write_file(&p(&["d", "a.jpg"]), vec![1, 2, 3]);
    let comp = Compressor::new(p(&["s", "a.png"]), p(&["d"]));
    assert_eq!(comp.compress_to_jpg(&mut fs), Err(CompressError::AlreadyExists));
    assert_eq!(fs.read_file(&p(&["d", "a.jpg"])), Some(vec![1, 2, 3]));
    assert!(fs.is_file(&p(&["s", "a.png"])));
}

#[test]
fn single_file_overwrites_when_asked() {
    let mut fs = Fs::new();
    assert!(fs.create_dir_all(&p(&["s"])));
    assert!(fs.create_dir_all(&p(&["d"])));
    fs.write_file(&p(&["s", "a.png"]), png_bytes());
    fs.write_file(&p(&["d", "a.jpg"]), vec![1, 2, 3]);
    let mut comp = Compressor::new(p(&["s", "a.png"]), p(&["d"]));
    comp.set_overwrite(true);
    let out = comp.compress_to_jpg(&mut fs).unwrap();
    assert_eq!(out, p(&["d", "a.jpg"]));
    let data = fs.read_file(&p(&["d", "a.jpg"])).unwrap();
    assert_eq!(&data[0..2], &[0xff, 0xd8]);
}

#[test]
fn single_file_copies_undecodable_sources() {
    let mut fs = Fs::new();
    assert!(fs.create_dir_all(&p(&["s"])));
    assert!(fs.create_dir_all(&p(&["d"])));
    let text = b"not an image".to_vec();
    fs.write_file(&p(&["s", "b.txt"]), text.clone());
    let mut comp = Compressor::new(p(&["s", "b.txt"]), p(&["d"]));
    comp.set_delete_source(true);
    assert_eq!(comp.compress_to_jpg(&mut fs), Err(CompressError::UnsupportedFormat));
    // copied verbatim under its own name, and the source survives: the
    // job failed before the deletion step
    assert_eq!(fs.read_file(&p(&["d", "b.txt"])), Some(text));
    assert!(fs.is_file(&p(&["s", "b.txt"])));
}

#[test]
fn single_file_deletes_source_after_success() {
    let mut fs = Fs::new();
    assert!(fs.create_dir_all(&p(&["s"])));
    assert!(fs.create_dir_all(&p(&["d"])));
    fs.write_file(&p(&["s", "a.png"]), png_bytes());
    let mut comp = Compressor::new(p(&["s", "a.png"]), p(&["d"]));
    comp.set_delete_source(true);
    comp.set_factor(Factor::new(6000, 800).unwrap());
    assert_eq!(comp.compress_to_jpg(&mut fs), Ok(p(&["d", "a.jpg"])));
    assert!(!fs.is_file(&p(&["s", "a.png"])));
    assert!(fs.is_file(&p(&["d", "a.jpg"])));
}

fn build_source_tree() -> Fs {
    let mut fs = Fs::new();
    assert!(fs.create_dir_all(&p(&["src"])));
    assert!(fs.create_dir_all(&p(&["src", "inner"])));
    assert!(fs.create_dir_all(&p(&["dst"])));
    fs.write_file(&p(&["src", "a.png"]), png_bytes());
    fs.write_file(&p(&["src", "b.txt"]), b"plain text".to_vec());
    fs.write_file(&p(&["src", "inner", "c.jpg"]), jpg_bytes());
    fs
}

#[test]
fn folder_compress_end_to_end() {
    // Three sources: a decodable PNG, an undecodable text file, and a
    // decodable JPEG in a subdirectory.  With deletion on, only the two
    // images leave the source tree.
    let mut fs = build_source_tree();
    let (tx, rx) = std::sync::mpsc::channel();
    let mut folder = FolderCompressor::new(p(&["src"]), p(&["dst"]));
    folder.set_thread_count(4);
    folder.set_delete_source(true);
    folder.set_sender(tx);
    folder.compress(&mut fs).unwrap();

    assert!(fs.is_file(&p(&["dst", "a.jpg"])));
    assert!(fs.is_file(&p(&["dst", "b.txt"])));
    assert!(fs.is_file(&p(&["dst", "inner", "c.jpg"])));
    assert_eq!(fs.read_file(&p(&["dst", "b.txt"])), Some(b"plain text".to_vec()));
    let a = fs.read_file(&p(&["dst", "a.jpg"])).unwrap();
    assert_eq!(&a[0..2], &[0xff, 0xd8]);

    // deletion gating: the images went, the text file stayed
    assert!(!fs.is_file(&p(&["src", "a.png"])));
    assert!(!fs.is_file(&p(&["src", "inner", "c.jpg"])));
    assert!(fs.is_file(&p(&["src", "b.txt"])));
    assert!(fs.is_dir(&p(&["src"])));

    let messages: Vec<String> = rx.try_iter().collect();
    assert_eq!(messages[0], "Total file count: 3".to_string());
    assert!(messages.contains(&"Compress complete!".to_string()));
    // the text file's failure is reported as the copy fallback
    assert!(messages.contains(&CompressError::UnsupportedFormat.message()));
    assert!(messages.contains(&"Cannot delete source directories!".to_string()));
}

#[test]
fn folder_compress_test() {
    // The destination carries the same stems as the source afterwards.
    let mut fs = build_source_tree();
    let folder = FolderCompressor::new(p(&["src"]), p(&["dst"]));
    folder.compress(&mut fs).unwrap();
    assert_eq!(dest_stems(&fs, &["src"]), dest_stems(&fs, &["dst"]));
}

#[test]
fn folder_compress_thread_count_immaterial() {
    // One worker or eight: the destination holds the same stem set.
    let mut fs1 = build_source_tree();
    let mut folder1 = FolderCompressor::new(p(&["src"]), p(&["dst"]));
    folder1.set_thread_count(1);
    folder1.compress(&mut fs1).unwrap();

    let mut fs8 = build_source_tree();
    let mut folder8 = FolderCompressor::new(p(&["src"]), p(&["dst"]));
    folder8.set_thread_count(8);
    folder8.compress(&mut fs8).unwrap();

    assert_eq!(dest_stems(&fs1, &["dst"]), dest_stems(&fs8, &["dst"]));
    assert_eq!(dest_stems(&fs1, &["dst"]), vec!["a".to_string(), "b".to_string(), "c".to_string()]);
}

#[test]
fn folder_compress_zero_workers_process_nothing() {
    let mut fs = build_source_tree();
    let mut folder = FolderCompressor::new(p(&["src"]), p(&["dst"]));
    folder.set_thread_count(0);
    folder.compress(&mut fs).unwrap();
    assert_eq!(get_file_list(&fs, &p(&["dst"])).unwrap(), Vec::<Vec<String>>::new());
    assert!(fs.is_file(&p(&["src", "a.png"])));
}

#[test]
fn folder_compress_fails_without_source() {
    let mut fs = Fs::new();
    assert!(fs.create_dir_all(&p(&["dst"])));
    let folder = FolderCompressor::new(p(&["missing"]), p(&["dst"]));
    assert!(folder.compress(&mut fs).is_err());
}
