use nix_cache_mirror::database::model::{Nar, NarMeta, StorePath};
use nix_cache_mirror::text::{parse_u64_in, push_decimal, push_signed_decimal};
use nix_cache_mirror::update::{parse_store_paths, trim};
use std::convert::TryFrom;

/// A small generator of numbers, the same on every run.
struct Gen(u64);

impl Gen {
    fn next(&mut self) -> u64 {
        self.0 = self
            .0
            .wrapping_mul(6364136223846793005)
            .wrapping_add(1442695040888963407);
        self.0 >> 33
    }

    fn pick<'a>(&mut self, items: &[&'a str]) -> &'a str {
        items[(self.next() % items.len() as u64) as usize]
    }

    fn text(&mut self, items: &[&str], max_len: u64) -> String {
        let n = self.next() % (max_len + 1);
        (0..n).map(|_| self.pick(items)).collect()
    }
}

const HELLO: &str = "/nix/store/yhzvzdq82lzk0kvrp3i79yhjnhps6qpk-hello-2.10";

/// The store path rules, written with what std offers.
fn store_path_by_std(path: &str) -> bool {
    fn is_valid_hash(s: &[u8]) -> bool {
        s.iter().all(|&b| match b {
            b'e' | b'o' | b'u' | b't' => false,
            b'a'..=b'z' | b'0'..=b'9' => true,
            _ => false,
        })
    }
    fn is_valid_name(s: &[u8]) -> bool {
        s.iter()
            .all(|&b| b.is_ascii_alphanumeric() || b"+-._?=".contains(&b))
    }
    45 <= path.len()
        && path.len() <= 212
        && path.is_ascii()
        && path.starts_with("/nix/store/")
        && path.as_bytes()[43] == b'-'
        && is_valid_hash(path[11..43].as_bytes())
        && is_valid_name(path[44..].as_bytes())
}

/// The narinfo rules, written with what std offers.
fn nar_info_by_std(info: &str) -> Result<Nar, &'static str> {
    let mut store_path = None;
    let (mut url, mut compression, mut file_hash, mut nar_hash) = (None, None, None, None);
    let (mut references, mut deriver, mut sig, mut ca) = (None, None, None, None);
    let (mut file_size, mut nar_size) = (None, None);
    for line in info.lines() {
        if line.is_empty() {
            continue;
        }
        let sep = line.find(": ").ok_or("Missing colon")?;
        let (k, v) = (&line[..sep], &line[sep + 2..]);
        match k {
            "StorePath" => {
                store_path = Some(StorePath::try_from(v).map_err(|_| "Invalid StorePath")?);
            }
            "URL" => url = Some(v),
            "Compression" => compression = Some(v),
            "FileHash" => file_hash = Some(v),
            "FileSize" => file_size = Some(v.parse::<u64>().map_err(|_| "Invalid FileSize")?),
            "NarHash" => nar_hash = Some(v),
            "NarSize" => nar_size = Some(v.parse::<u64>().map_err(|_| "Invalid NarSize")?),
            "References" => references = Some(v),
            "Deriver" => deriver = Some(v),
            "Sig" => sig = Some(v),
            "CA" => ca = Some(v),
            _ => return Err("Unknown field"),
        }
    }
    Ok(Nar {
        store_path: store_path.ok_or("Missing StorePath")?,
        meta: NarMeta {
            compression: compression.map(|s| s.to_owned()),
            url: url.ok_or("Missing URL")?.to_owned(),
            file_hash: file_hash.map(|s| s.to_owned()),
            file_size,
            nar_hash: nar_hash.ok_or("Missing NarHash")?.to_owned(),
            nar_size: nar_size.ok_or("Missing NarSize")?,
            deriver: deriver.map(|s| s.to_owned()),
            sig: sig.map(|s| s.to_owned()),
            ca: ca.map(|s| s.to_owned()),
        },
        references: references.ok_or("Missing References")?.to_owned(),
    })
}

#[test]
fn store_paths_agree_with_std() {
    let pieces = [
        "/nix/store/", "/", "-", "0", "a", "e", "z", "A", "_", "+", "?", "=", ".", " ", "é",
        "0000", "abcd", "yhzvzdq82lzk0kvrp3i79yhjnhps6qpk", "hello-2.10", "\n", "t", "u", "o",
    ];
    let mut gen = Gen(1);
    let mut accepted = 0;
    for round in 0..20000 {
        let text = if round % 3 == 0 {
            // A store path with one place changed.
            let mut chars: Vec<char> = HELLO.chars().collect();
            let at = (gen.next() % chars.len() as u64) as usize;
            chars[at] = gen.pick(&pieces).chars().next().unwrap();
            chars.into_iter().collect()
        } else if round % 3 == 1 {
            format!("/nix/store/{}", gen.text(&pieces, 8))
        } else {
            gen.text(&pieces, 30)
        };
        let ours = StorePath::try_from(text.as_str());
        assert_eq!(ours.is_ok(), store_path_by_std(&text), "{:?}", text);
        if let Ok(p) = ours {
            accepted += 1;
            assert_eq!(p.path(), text);
            assert_eq!(p.hash_str(), &text[11..43]);
            assert_eq!(p.name(), &text[44..]);
        }
    }
    assert!(accepted > 1000);
}

#[test]
fn narinfo_agrees_with_std() {
    let pieces = [
        "StorePath", "URL", "Compression", "FileHash", "FileSize", "NarHash", "NarSize",
        "References", "Deriver", "Sig", "CA", "Other", ": ", ": ", ":", " ", "\n", "\n", "\n",
        "\r\n", "\r", HELLO, "1", "23", "+4", "-5", "x", "é", "99999999999999999999",
        "URL: u\n", "NarHash: h\n", "NarSize: 7\n", "References: \n", "StorePath: ",
    ];
    let hello_line = format!("StorePath: {}\n", HELLO);
    let lines = [
        hello_line.as_str(),
        hello_line.as_str(),
        "URL: u\n",
        "URL: some: url\r\n",
        "NarHash: h\n",
        "NarSize: 7\n",
        "NarSize: +007\r\n",
        "References: \n",
        "References: a b\n",
        "Compression: xz\n",
        "FileHash: f\r\r\n",
        "FileSize: 12\n",
        "FileSize: 1x\n",
        "Deriver: d.drv\n",
        "Sig: s:i/g 2\n",
        "CA: fixed:hash\n",
        "CA: last\r",
        "\n",
        "\r\n",
        "Frob: 1\n",
        "NoColon\n",
    ];
    // Without the lines that are refused.
    let accepted_lines: Vec<&str> = lines[..lines.len() - 2]
        .iter()
        .filter(|line| **line != "FileSize: 1x\n")
        .cloned()
        .collect();
    let mut gen = Gen(2);
    let (mut good, mut bad) = (0, 0);
    for round in 0..30000 {
        let text = if round % 4 == 0 {
            gen.text(&pieces, 24)
        } else if round % 4 == 1 {
            gen.text(&lines, 9)
        } else {
            gen.text(&accepted_lines, 14)
        };
        let ours = Nar::parse_nar_info_inner(&text).map_err(|e| e.message());
        let theirs = nar_info_by_std(&text);
        assert_eq!(ours, theirs, "{:?}", text);
        match ours {
            Ok(nar) => {
                good += 1;
                // What was read is written and read again as itself, unless a
                // value ends in a carriage return.
                let written = nar.format_nar_info();
                let again = Nar::parse_nar_info_inner(&written);
                let safe = |s: &str| !s.ends_with('\r');
                let all_safe = safe(&nar.meta.url)
                    && safe(&nar.meta.nar_hash)
                    && safe(&nar.references)
                    && [
                        &nar.meta.compression,
                        &nar.meta.file_hash,
                        &nar.meta.deriver,
                        &nar.meta.sig,
                        &nar.meta.ca,
                    ]
                    .iter()
                    .all(|o| o.as_deref().map_or(true, safe));
                assert_eq!(again.as_ref() == Ok(&nar), all_safe, "{:?}", text);
            }
            Err(_) => bad += 1,
        }
    }
    assert!(good > 100 && bad > 100, "{} {}", good, bad);
}

#[test]
fn numbers_agree_with_std() {
    let pieces = ["0", "1", "9", "+", "-", " ", "18446744073709551615", "x", "٣"];
    let mut gen = Gen(3);
    for _ in 0..20000 {
        let text = gen.text(&pieces, 6);
        let chars: Vec<char> = text.chars().collect();
        assert_eq!(
            parse_u64_in(&chars, 0, chars.len()),
            text.parse::<u64>().ok(),
            "{:?}",
            text
        );
    }
    for _ in 0..20000 {
        let n = gen.next().wrapping_mul(gen.next()) >> (gen.next() % 64);
        let mut out = String::new();
        push_decimal(&mut out, n);
        assert_eq!(out, format!("{}", n));
        let i = n as i32;
        let mut out = String::new();
        push_signed_decimal(&mut out, i);
        assert_eq!(out, format!("{}", i));
    }
}

#[test]
fn lines_and_white_space_agree_with_std() {
    let pieces = [HELLO, "\n", "\n", "\r\n", "\r", " ", "\t", "\x0c", "x", "\u{a0}"];
    let mut gen = Gen(4);
    for _ in 0..20000 {
        let text = gen.text(&pieces, 8);
        assert_eq!(trim(&text), text.trim_ascii(), "{:?}", text);
        let expected: Result<Vec<StorePath>, ()> = text
            .lines()
            .filter(|line| !line.is_empty())
            .map(|line| StorePath::try_from(line).map_err(|_| ()))
            .collect();
        let ours = parse_store_paths(&text).map_err(|_| ());
        assert_eq!(ours, expected, "{:?}", text);
    }
}

#[test]
fn references_agree_with_std() {
    let pieces = ["yhzvzdq82lzk0kvrp3i79yhjnhps6qpk-hello-2.10", " ", " ", "x", "-"];
    let mut gen = Gen(5);
    let mut nar = Nar::parse_nar_info_inner(&format!(
        "StorePath: {}\nURL: u\nNarHash: h\nNarSize: 1\nReferences: \n",
        HELLO
    ))
    .unwrap();
    for _ in 0..5000 {
        nar.references = gen.text(&pieces, 6);
        let expected: Vec<bool> = nar
            .references
            .split_terminator(' ')
            .map(|base| StorePath::try_from(format!("/nix/store/{}", base)).is_ok())
            .collect();
        let ours: Vec<bool> = nar.ref_paths().iter().map(|r| r.is_ok()).collect();
        assert_eq!(ours, expected, "{:?}", nar.references);
        let bases: Vec<String> = nar
            .ref_paths()
            .iter()
            .flatten()
            .map(|p| p.path()[11..].to_owned())
            .collect();
        let expected_bases: Vec<&str> = nar
            .references
            .split_terminator(' ')
            .filter(|base| StorePath::try_from(format!("/nix/store/{}", base)).is_ok())
            .collect();
        assert_eq!(bases, expected_bases);
    }
}
