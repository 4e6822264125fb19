use cotti_build_support::archive::{
    archive_format, decompress, ArchiveFormat, Compression, UntarError,
};
use std::io::{Read, Write};

const FILE1: &[u8] = b"first file\n";
const FILE2: &[u8] = b"second file, a little longer\n";

fn tar_bytes() -> Vec<u8> {
    let mut builder = tar::Builder::new(Vec::new());
    for (name, data) in [("file1.txt", FILE1), ("file2.txt", FILE2)] {
        let mut header = tar::Header::new_gnu();
        header.set_size(data.len() as u64);
        header.set_mode(0o644);
        header.set_cksum();
        builder.append_data(&mut header, name, data).unwrap();
    }
    builder.into_inner().unwrap()
}

fn compress(c: Compression, data: &[u8]) -> Vec<u8> {
    match c {
        Compression::Plain => data.to_vec(),
        Compression::Gzip => {
            let mut e = flate2::write::GzEncoder::new(Vec::new(), flate2::Compression::default());
            e.write_all(data).unwrap();
            e.finish().unwrap()
        }
        Compression::Bzip2 => {
            let mut e = bzip2::write::BzEncoder::new(Vec::new(), bzip2::Compression::default());
            e.write_all(data).unwrap();
            e.finish().unwrap()
        }
        Compression::Xz => {
            let mut e = xz2::write::XzEncoder::new(Vec::new(), 6);
            e.write_all(data).unwrap();
            e.finish().unwrap()
        }
        Compression::Lzma => {
            let options = xz2::stream::LzmaOptions::new_preset(6).unwrap();
            let stream = xz2::stream::Stream::new_lzma_encoder(&options).unwrap();
            let mut e = xz2::write::XzEncoder::new_stream(Vec::new(), stream);
            e.write_all(data).unwrap();
            e.finish().unwrap()
        }
        Compression::Zstd => zstd::encode_all(data, 0).unwrap(),
    }
}

/// Unpacks `name` the way the archive at that path would be: its format by
/// its extension, its tar stream decompressed, then both files read back.
fn untar_generic(name: &str) {
    let format = archive_format(name.as_bytes()).expect("Ok");
    let c = match format {
        ArchiveFormat::Tar(c) => c,
        ArchiveFormat::Zip => panic!("not a tar archive"),
    };
    let archive = compress(c, &tar_bytes());
    let decoded = decompress(c, &archive);
    assert!(decoded.failure.is_none());
    let stream = decoded.stream;
    assert_eq!(stream, tar_bytes());
    let mut tar = tar::Archive::new(&stream[..]);
    let mut contents = Vec::new();
    for entry in tar.entries().unwrap() {
        let mut entry = entry.unwrap();
        let path = entry.path().unwrap().to_string_lossy().into_owned();
        let mut data = Vec::new();
        entry.read_to_end(&mut data).unwrap();
        contents.push((path, data));
    }
    assert!(contents[0] == (String::from("file1.txt"), FILE1.to_vec()));
    assert!(contents[1] == (String::from("file2.txt"), FILE2.to_vec()));
}

#[test]
fn untar_tar() {
    untar_generic("files.tar");
}

#[test]
fn untar_bzip2() {
    untar_generic("files.tar.bz2");
}

#[test]
fn untar_gzip() {
    untar_generic("files.tar.gz");
}

#[test]
fn untar_lzma() {
    untar_generic("files.tar.lzma");
}

#[test]
fn untar_xz() {
    untar_generic("files.tar.xz");
}

#[test]
fn untar_zst() {
    untar_generic("files.tar.zst");
}

#[test]
fn untar_zip() {
    assert!(matches!(archive_format(b"files.zip"), Ok(ArchiveFormat::Zip)));
}

#[test]
fn every_known_extension() {
    let table = [
        ("a.tar", ArchiveFormat::Tar(Compression::Plain)),
        ("a.tar.bz2", ArchiveFormat::Tar(Compression::Bzip2)),
        ("a.tbz2", ArchiveFormat::Tar(Compression::Bzip2)),
        ("a.tbz", ArchiveFormat::Tar(Compression::Bzip2)),
        ("a.tar.xz", ArchiveFormat::Tar(Compression::Xz)),
        ("a.txz", ArchiveFormat::Tar(Compression::Xz)),
        ("a.tar.lzma", ArchiveFormat::Tar(Compression::Lzma)),
        ("a.tar.gz", ArchiveFormat::Tar(Compression::Gzip)),
        ("/x/libftd2xx-linux-x86_64-1.4.35.tgz", ArchiveFormat::Tar(Compression::Gzip)),
        ("a.tar.zst", ArchiveFormat::Tar(Compression::Zstd)),
        ("a.tzst", ArchiveFormat::Tar(Compression::Zstd)),
        ("a.zip", ArchiveFormat::Zip),
    ];
    for (path, format) in table {
        assert_eq!(archive_format(path.as_bytes()).unwrap(), format, "{}", path);
    }
}

#[test]
fn unknown_extension_refused() {
    for path in ["a.rar", "a.TAR", "archive", ".tar", "dir.tar/..", "a.gz.txt"] {
        match archive_format(path.as_bytes()) {
            Err(UntarError::UnknownExtension(p)) => assert_eq!(p, path.as_bytes()),
            other => panic!("{}: {:?}", path, other),
        }
    }
}

const ALL: [Compression; 5] = [
    Compression::Gzip,
    Compression::Bzip2,
    Compression::Xz,
    Compression::Lzma,
    Compression::Zstd,
];

#[test]
fn each_decoder_inflates() {
    let data = b"hello hello hello hello hello hello".to_vec();
    for c in ALL {
        let packed = compress(c, &data);
        assert_ne!(packed, data);
        let decoded = decompress(c, &packed);
        assert!(decoded.failure.is_none(), "{:?}", c);
        assert_eq!(decoded.stream, data);
    }
    let decoded = decompress(Compression::Plain, &data);
    assert!(decoded.failure.is_none());
    assert_eq!(decoded.stream, data);
}

#[test]
fn lzma_also_takes_xz() {
    let data = b"an xz stream behind a .lzma name".to_vec();
    let decoded = decompress(Compression::Lzma, &compress(Compression::Xz, &data));
    assert!(decoded.failure.is_none());
    assert_eq!(decoded.stream, data);
}

#[test]
fn xz_refuses_legacy_lzma() {
    let data = b"legacy lzma data".to_vec();
    let decoded = decompress(Compression::Xz, &compress(Compression::Lzma, &data));
    assert!(matches!(decoded.failure, Some(UntarError::Decode(_))));
}

#[test]
fn garbage_is_a_decode_error() {
    let garbage = b"this is not compressed at all".to_vec();
    for c in ALL {
        assert!(matches!(decompress(c, &garbage).failure, Some(UntarError::Decode(_))), "{:?}", c);
    }
}

#[test]
fn damaged_tail_keeps_what_was_decoded() {
    // A gzip stream without its trailer still yields the whole tar stream,
    // end marker included, before the decoder fails.
    let tar = tar_bytes();
    let mut packed = compress(Compression::Gzip, &tar);
    packed.truncate(packed.len() - 8);
    let decoded = decompress(Compression::Gzip, &packed);
    assert!(matches!(decoded.failure, Some(UntarError::Decode(_))));
    assert_eq!(decoded.stream, tar);
    let mut archive = tar::Archive::new(&decoded.stream[..]);
    assert_eq!(archive.entries().unwrap().count(), 2);
}

#[test]
fn format_told_by_file_name_alone() {
    for dir in ["/tmp/a.zip/", "/tmp/x.tar", "", "rel.gz"] {
        for name in ["files.tar.gz", "files.zip", "files.tzst", "files.txt", "files.tar.lzma"] {
            let joined = cotti_build_support::path::join(dir.as_bytes(), name.as_bytes());
            assert_eq!(
                archive_format(&joined).ok(),
                archive_format(name.as_bytes()).ok(),
                "{}",
                String::from_utf8_lossy(&joined)
            );
        }
    }
}
