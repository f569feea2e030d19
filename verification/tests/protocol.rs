use rsync_client::envelope::{demux, encode_frame};
use rsync_client::file_list::{recv_file_list, FileEntry, ListStep};
use rsync_client::filter::{send_filter_rules, Rule};
use rsync_client::generator::{
    generate_sums, phase_sentinel, plan_entry, request_whole, GenAction, LocalMeta,
};
use rsync_client::handshake::{
    build_options, check_greeting, classify_server_line, client_greeting, module_line, ServerLine,
};
use rsync_client::recv::{decide_index, recv_file, FileRecv, IndexAction};
use rsync_client::sums::{checksum_1, checksum_2, sum_sizes_sqroot, SumHead};
use rsync_client::token::{push_token, read_token_at, Token};
use rsync_client::uid_list::consume_uid_mapping;
use rsync_client::wire::{push_rsync_long, read_i32_le_at, read_rsync_long_at};
use rsync_client::RsyncError;

fn le32(v: u32) -> Vec<u8> {
    vec![
        (v & 0xff) as u8,
        ((v >> 8) & 0xff) as u8,
        ((v >> 16) & 0xff) as u8,
        ((v >> 24) & 0xff) as u8,
    ]
}

#[test]
fn rsync_long_short_form_roundtrip() {
    let mut buf = Vec::new();
    push_rsync_long(&mut buf, 5);
    assert_eq!(buf, vec![5, 0, 0, 0]);
    let (v, n) = read_rsync_long_at(&buf, 0).unwrap();
    assert_eq!(v, 5);
    assert_eq!(n, 4);
}

#[test]
fn rsync_long_long_form_roundtrip() {
    // 2^32 - 1 must take the long form; values below it the short form
    let mut buf = Vec::new();
    push_rsync_long(&mut buf, 0xffff_ffff);
    assert_eq!(buf.len(), 12);
    assert_eq!(&buf[..4], &[0xff, 0xff, 0xff, 0xff]);
    let (v, n) = read_rsync_long_at(&buf, 0).unwrap();
    assert_eq!(v, 0xffff_ffff);
    assert_eq!(n, 12);

    let mut buf2 = Vec::new();
    push_rsync_long(&mut buf2, 0xffff_fffe);
    assert_eq!(buf2.len(), 4);

    let mut buf3 = Vec::new();
    push_rsync_long(&mut buf3, 0x7fff_ffff_ffff_ffff);
    let (v3, _) = read_rsync_long_at(&buf3, 0).unwrap();
    assert_eq!(v3, 0x7fff_ffff_ffff_ffff);
}

#[test]
fn token_roundtrip() {
    let mut buf = Vec::new();
    push_token(&mut buf, &Token::Data(vec![1, 2, 3]));
    push_token(&mut buf, &Token::Copied(7));
    push_token(&mut buf, &Token::Done);
    let (t1, p1) = read_token_at(&buf, 0).unwrap();
    assert!(matches!(t1, Token::Data(ref b) if b == &vec![1u8, 2, 3]));
    let (t2, p2) = read_token_at(&buf, p1).unwrap();
    assert!(matches!(t2, Token::Copied(7)));
    let (t3, p3) = read_token_at(&buf, p2).unwrap();
    assert!(matches!(t3, Token::Done));
    assert_eq!(p3, buf.len());
    // the copied form is the negative word -(k + 1)
    let (i, _) = read_i32_le_at(&buf, p1).unwrap();
    assert_eq!(i, -8);
}

#[test]
fn envelope_interleaved_roundtrip() {
    // data, log, data: the data stream reassembles, the log line comes out
    let mut wire = Vec::new();
    wire.extend(encode_frame(7, &b"hel".to_vec()));
    wire.extend(encode_frame(8, &b"warning: test\n".to_vec()));
    wire.extend(encode_frame(7, &b"lo".to_vec()));
    let (data, logs, rest) = demux(&wire).unwrap();
    assert_eq!(data, b"hello".to_vec());
    assert_eq!(logs, vec![b"warning: test\n".to_vec()]);
    assert!(rest.is_empty());
}

#[test]
fn envelope_partial_frame_kept() {
    let mut wire = Vec::new();
    wire.extend(encode_frame(7, &b"abc".to_vec()));
    let full = encode_frame(7, &b"defgh".to_vec());
    wire.extend(&full[..4]);
    let (data, logs, rest) = demux(&wire).unwrap();
    assert_eq!(data, b"abc".to_vec());
    assert!(logs.is_empty());
    assert_eq!(rest, full[..4].to_vec());
}

#[test]
fn envelope_unknown_tag_fails() {
    let wire = encode_frame(3, &b"x".to_vec());
    assert!(matches!(demux(&wire), Err(RsyncError::ProtocolError)));
}

#[test]
fn greeting_too_old() {
    let line = b"@RSYNCD: 26.0\n".to_vec();
    assert!(matches!(
        check_greeting(&line),
        Err(RsyncError::VersionTooOld(26))
    ));
}

#[test]
fn greeting_accepted() {
    assert_eq!(check_greeting(&b"@RSYNCD: 27.0\n".to_vec()).unwrap(), 27);
    assert_eq!(check_greeting(&b"@RSYNCD: 31\n".to_vec()).unwrap(), 31);
    assert!(matches!(
        check_greeting(&b"hello\n".to_vec()),
        Err(RsyncError::ProtocolError)
    ));
}

#[test]
fn server_line_classification() {
    assert!(matches!(
        classify_server_line(&b"@ERROR unknown module\n".to_vec()),
        ServerLine::Failed
    ));
    assert!(matches!(
        classify_server_line(&b"@RSYNCD: AUTHREQD abc\n".to_vec()),
        ServerLine::AuthRequired
    ));
    assert!(matches!(
        classify_server_line(&b"@RSYNCD: OK\n".to_vec()),
        ServerLine::Accepted
    ));
    assert!(matches!(
        classify_server_line(&b"welcome to the mirror\n".to_vec()),
        ServerLine::Motd
    ));
}

fn entry_record(name: &[u8], len: u64, mtime: u32, mode: u32) -> Vec<u8> {
    let mut rec = vec![0x01u8]; // only TOP_DIR set: no inheritance
    rec.push(name.len() as u8);
    rec.extend(name);
    let mut long = Vec::new();
    push_rsync_long(&mut long, len);
    rec.extend(long);
    rec.extend(le32(mtime));
    rec.extend(le32(mode));
    rec
}

#[test]
fn file_list_single_entry() {
    let mut wire = entry_record(b"a", 5, 1_700_000_000, 0o100644);
    wire.push(0); // terminator
    match recv_file_list(&wire, 0) {
        ListStep::Done(list, n) => {
            assert_eq!(n, wire.len());
            assert_eq!(list.len(), 1);
            assert_eq!(list[0].name, b"a".to_vec());
            assert_eq!(list[0].len, 5);
            assert_eq!(list[0].modify_time, 1_700_000_000);
            assert_eq!(list[0].mode, 0o100644);
            assert_eq!(list[0].idx, 0);
            assert!(list[0].link_target.is_none());
        }
        _ => panic!("expected a complete list"),
    }
}

#[test]
fn file_list_sorted_and_deduped() {
    let mut wire = Vec::new();
    wire.extend(entry_record(b"b", 1, 10, 0o100644));
    wire.extend(entry_record(b"a", 2, 20, 0o100644));
    wire.extend(entry_record(b"a", 3, 30, 0o100644));
    wire.push(0);
    match recv_file_list(&wire, 0) {
        ListStep::Done(list, _) => {
            assert_eq!(list.len(), 2);
            assert_eq!(list[0].name, b"a".to_vec());
            assert_eq!(list[0].len, 2); // the first decoded "a" wins
            assert_eq!(list[0].idx, 0);
            assert_eq!(list[1].name, b"b".to_vec());
            assert_eq!(list[1].idx, 1);
        }
        _ => panic!("expected a complete list"),
    }
}

#[test]
fn file_list_name_inheritance() {
    // second record reuses 3 bytes of "abc" and appends "d"
    let mut wire = Vec::new();
    wire.extend(entry_record(b"abc", 1, 10, 0o100644));
    let mut rec = vec![0x20u8 | 0x80 | 0x02]; // SAME_NAME | SAME_TIME | SAME_MODE
    rec.push(3); // inherit length
    rec.push(1); // suffix length
    rec.push(b'd');
    let mut long = Vec::new();
    push_rsync_long(&mut long, 7);
    rec.extend(long);
    wire.extend(rec);
    wire.push(0);
    match recv_file_list(&wire, 0) {
        ListStep::Done(list, _) => {
            assert_eq!(list.len(), 2);
            assert_eq!(list[0].name, b"abc".to_vec());
            assert_eq!(list[1].name, b"abcd".to_vec());
            assert_eq!(list[1].len, 7);
            assert_eq!(list[1].modify_time, 10);
            assert_eq!(list[1].mode, 0o100644);
        }
        _ => panic!("expected a complete list"),
    }
}

#[test]
fn file_list_path_too_long() {
    let mut wire = vec![0x40u8]; // LONG_NAME
    wire.extend(le32(5000));
    assert!(matches!(
        recv_file_list(&wire, 0),
        ListStep::Fail(RsyncError::PathTooLong)
    ));
}

#[test]
fn file_list_incomplete() {
    let wire = vec![0x01u8, 3, b'a'];
    assert!(matches!(recv_file_list(&wire, 0), ListStep::Incomplete));
}

#[test]
fn empty_module_session() {
    // list terminator at once, io_errors = 0, both phase sentinels, stats
    let mut wire = vec![0u8];
    wire.extend(le32(0)); // io_errors
    match recv_file_list(&wire, 0) {
        ListStep::Done(list, n) => {
            assert!(list.is_empty());
            let (io_errors, n2) = read_i32_le_at(&wire, n).unwrap();
            assert_eq!(io_errors, 0);
            assert_eq!(n2, wire.len());
        }
        _ => panic!("expected a complete list"),
    }
    assert_eq!(phase_sentinel(), vec![0xff, 0xff, 0xff, 0xff]);
    let mut tail = Vec::new();
    tail.extend(phase_sentinel());
    tail.extend(phase_sentinel());
    push_rsync_long(&mut tail, 0);
    push_rsync_long(&mut tail, 0);
    push_rsync_long(&mut tail, 0);
    let (idx1, p) = read_i32_le_at(&tail, 0).unwrap();
    assert!(matches!(decide_index(idx1, 0, 0), IndexAction::NextPhase));
    let (idx2, p2) = read_i32_le_at(&tail, p).unwrap();
    assert!(matches!(decide_index(idx2, 1, 0), IndexAction::Finished));
    let (r1, p3) = read_rsync_long_at(&tail, p2).unwrap();
    let (r2, p4) = read_rsync_long_at(&tail, p3).unwrap();
    let (r3, p5) = read_rsync_long_at(&tail, p4).unwrap();
    assert_eq!((r1, r2, r3), (0, 0, 0));
    assert_eq!(p5, tail.len());
}

#[test]
fn sum_head_square_root_policy() {
    let h = sum_sizes_sqroot(5);
    assert_eq!(h.checksum_len, 16);
    assert_eq!(h.block_len, 700);
    assert_eq!(h.checksum_count, 1);
    assert_eq!(h.remainder_len, 5);
    assert_eq!(
        (h.checksum_count as u64 - 1) * h.block_len as u64 + h.remainder_len as u64,
        5
    );
    // a length that the block length divides: the remainder field is zero
    let h2 = sum_sizes_sqroot(1400);
    assert_eq!(h2.block_len, 700);
    assert_eq!(h2.checksum_count, 2);
    assert_eq!(h2.remainder_len, 0);
    assert_eq!(h2.checksum_count as u64 * h2.block_len as u64, 1400);
    let h0 = sum_sizes_sqroot(0);
    assert_eq!(h0.checksum_count, 0);
    // a large file: block length near the square root, a multiple of 8
    let h3 = sum_sizes_sqroot(1_000_000);
    assert_eq!(h3.block_len, 1000);
    assert_eq!(h3.checksum_count, 1000);
    assert_eq!(h3.remainder_len, 0);
}

#[test]
fn rolling_checksum_value() {
    // s1 = 97+98+99 = 294; s2 = 97 + 195 + 294 = 586; 586*65536 + 294
    assert_eq!(checksum_1(&b"abc".to_vec()), 586 * 65536 + 294);
    assert_eq!(checksum_1(&Vec::new()), 0);
}

#[test]
fn strong_checksum_known_value() {
    // MD4 of the four zero seed bytes alone
    let d = checksum_2(0, &Vec::new());
    assert_eq!(
        d,
        vec![27, 6, 176, 3, 125, 68, 188, 201, 31, 11, 38, 83, 228, 229, 204, 213]
    );
}

#[test]
fn whole_file_transfer() {
    // zero sum head, Data("hello"), Done, then MD4(seed || "hello"), seed 0
    let mut wire = Vec::new();
    push_token(&mut wire, &Token::Data(b"hello".to_vec()));
    push_token(&mut wire, &Token::Done);
    let digest = vec![
        198, 76, 135, 158, 239, 41, 185, 2, 72, 81, 240, 223, 23, 192, 221, 121,
    ];
    wire.extend(&digest);
    let h = SumHead {
        checksum_count: 0,
        block_len: 0,
        checksum_len: 0,
        remainder_len: 0,
    };
    match recv_file(&wire, 0, &h, None, 0) {
        FileRecv::Done(out, n) => {
            assert_eq!(out, b"hello".to_vec());
            assert_eq!(n, wire.len());
        }
        _ => panic!("expected a rebuilt file"),
    }
}

#[test]
fn incremental_transfer_with_copied_blocks() {
    // basis AAAABBBB, remote AAAABBBBCC: two copied blocks and one literal
    let basis = b"AAAABBBB".to_vec();
    let h = SumHead {
        checksum_count: 2,
        block_len: 4,
        checksum_len: 16,
        remainder_len: 0,
    };
    let mut wire = Vec::new();
    push_token(&mut wire, &Token::Copied(0));
    push_token(&mut wire, &Token::Copied(1));
    push_token(&mut wire, &Token::Data(b"CC".to_vec()));
    push_token(&mut wire, &Token::Done);
    wire.extend(vec![
        113, 142, 57, 224, 49, 241, 150, 250, 63, 8, 144, 36, 202, 10, 138, 251,
    ]);
    match recv_file(&wire, 0, &h, Some(&basis), 0) {
        FileRecv::Done(out, _) => assert_eq!(out, b"AAAABBBBCC".to_vec()),
        _ => panic!("expected a rebuilt file"),
    }
}

#[test]
fn checksum_mismatch_detected() {
    let basis = b"AAAABBBB".to_vec();
    let h = SumHead {
        checksum_count: 2,
        block_len: 4,
        checksum_len: 16,
        remainder_len: 0,
    };
    let mut wire = Vec::new();
    push_token(&mut wire, &Token::Copied(0));
    push_token(&mut wire, &Token::Copied(1));
    push_token(&mut wire, &Token::Data(b"CC".to_vec()));
    push_token(&mut wire, &Token::Done);
    let mut digest = vec![
        113, 142, 57, 224, 49, 241, 150, 250, 63, 8, 144, 36, 202, 10, 138, 251,
    ];
    digest[0] ^= 1;
    wire.extend(digest);
    assert!(matches!(
        recv_file(&wire, 0, &h, Some(&basis), 0),
        FileRecv::Fail(RsyncError::ChecksumMismatch)
    ));
}

#[test]
fn missing_basis_detected() {
    let h = SumHead {
        checksum_count: 2,
        block_len: 4,
        checksum_len: 16,
        remainder_len: 0,
    };
    let mut wire = Vec::new();
    push_token(&mut wire, &Token::Copied(0));
    push_token(&mut wire, &Token::Done);
    wire.extend(vec![0u8; 16]);
    assert!(matches!(
        recv_file(&wire, 0, &h, None, 0),
        FileRecv::Fail(RsyncError::MissingBasis)
    ));
}

#[test]
fn generator_planning() {
    let dir = FileEntry {
        name: b"d".to_vec(),
        len: 0,
        modify_time: 0,
        mode: 0o040755,
        link_target: None,
        idx: 0,
    };
    assert!(matches!(plan_entry(&dir, None, false), GenAction::CreateDir));
    let link = FileEntry {
        name: b"l".to_vec(),
        len: 0,
        modify_time: 0,
        mode: 0o120777,
        link_target: Some(b"t".to_vec()),
        idx: 1,
    };
    assert!(matches!(plan_entry(&link, None, false), GenAction::Skip));
    let file = FileEntry {
        name: b"a".to_vec(),
        len: 5,
        modify_time: 100,
        mode: 0o100644,
        link_target: None,
        idx: 2,
    };
    // up to date: skip
    let m = LocalMeta {
        is_regular: true,
        size: 5,
        mtime: 100,
    };
    assert!(matches!(plan_entry(&file, Some(m), true), GenAction::Skip));
    // stale: incremental when openable
    let m2 = LocalMeta {
        is_regular: true,
        size: 4,
        mtime: 100,
    };
    assert!(matches!(
        plan_entry(&file, Some(m2), true),
        GenAction::SendSums
    ));
    // absent: whole file
    assert!(matches!(plan_entry(&file, None, false), GenAction::SendWhole));
    let req = request_whole(2);
    assert_eq!(req.len(), 20);
    assert_eq!(&req[..4], &[2, 0, 0, 0]);
    assert_eq!(&req[4..], &[0u8; 16]);
}

#[test]
fn generator_emits_sums() {
    let basis = vec![7u8; 800];
    let (h, bytes) = generate_sums(0, &basis);
    assert_eq!(h.block_len, 700);
    assert_eq!(h.checksum_count, 2);
    assert_eq!(h.remainder_len, 100);
    // head (16 bytes) + 2 blocks of (4 + 16) bytes
    assert_eq!(bytes.len(), 16 + 2 * 20);
    // the first rolling checksum covers 700 bytes of 7
    let first = u32::from_le_bytes([bytes[16], bytes[17], bytes[18], bytes[19]]);
    assert_eq!(first, checksum_1(&vec![7u8; 700]));
    let second_rolling = u32::from_le_bytes([bytes[36], bytes[37], bytes[38], bytes[39]]);
    assert_eq!(second_rolling, checksum_1(&vec![7u8; 100]));
    // the strong checksum differs from the raw block: the wrapper hashes
    let strong = &bytes[20..36];
    assert_ne!(strong, &vec![7u8; 16][..]);
    assert_eq!(strong, &checksum_2(0, &vec![7u8; 700])[..]);
}

#[test]
fn uid_mapping_skipped() {
    let mut wire = Vec::new();
    wire.extend(le32(5));
    wire.push(2);
    wire.extend(b"ab");
    wire.extend(le32(0)); // end of uid table
    wire.extend(le32(9));
    wire.push(1);
    wire.push(b'g');
    wire.extend(le32(0)); // end of gid table
    assert_eq!(consume_uid_mapping(&wire, 0), Some(wire.len()));
    assert_eq!(consume_uid_mapping(&wire[..5].to_vec(), 0), None);
}

#[test]
fn filter_rules_encoding() {
    assert_eq!(send_filter_rules(&Vec::new()), vec![0, 0, 0, 0]);
    let rules = vec![Rule::Exclude(b"x".to_vec()), Rule::Include(b"y/".to_vec())];
    let bytes = send_filter_rules(&rules);
    let mut expect = Vec::new();
    expect.extend(le32(2));
    expect.extend(b"-x");
    expect.extend(le32(3));
    expect.extend(b"+y/");
    expect.extend(le32(0));
    assert_eq!(bytes, expect);
}

#[test]
fn greeting_bytes_and_options() {
    assert_eq!(client_greeting(), b"@RSYNCD: 27.0\n".to_vec());
    assert_eq!(module_line(&b"mod".to_vec()), b"mod\n".to_vec());
    assert_eq!(
        build_options(&b"mod/sub".to_vec()),
        b"--server\n--sender\n-ltpr\n.\nmod/sub\n\n".to_vec()
    );
    assert_eq!(
        build_options(&Vec::new()),
        b"--server\n--sender\n-ltpr\n.\n\n".to_vec()
    );
}

#[test]
fn mod_time_compares_seconds() {
    assert!(rsync_client::mod_time_eq(1_700_000_000, 1_700_000_000));
    assert!(!rsync_client::mod_time_eq(1_700_000_000, 1_700_000_001));
}

#[test]
fn name_lossy_shows_bytes() {
    let e = FileEntry {
        name: b"dir/file".to_vec(),
        len: 0,
        modify_time: 0,
        mode: 0o100644,
        link_target: None,
        idx: 0,
    };
    assert_eq!(e.name_lossy(), "dir/file");
}
