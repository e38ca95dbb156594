use bgzf_rust_reader::{read_block, BgzfReader, ReadOutcome};
use std::str;

/// The reference file: one block that holds 280 bytes of text, and the
/// terminal block.
fn bgzf_test_file() -> Vec<u8> {
    vec![
        31, 139, 8, 4, 0, 0, 0, 0, 0, 255, 6, 0, 66, 67, 2, 0,
        210, 0, 85, 143, 193, 110, 195, 48, 12, 67, 127, 133, 151, 30, 6, 20,
        65, 119, 221, 23, 108, 231, 118, 31, 160, 182, 74, 236, 198, 179, 0, 139,
        169, 151, 125, 253, 236, 4, 24, 48, 64, 39, 66, 36, 31, 47, 33, 58,
        218, 61, 22, 39, 4, 215, 233, 103, 4, 213, 121, 76, 74, 135, 171, 34,
        88, 69, 36, 138, 202, 141, 62, 224, 237, 101, 192, 7, 24, 98, 158, 187,
        92, 99, 74, 168, 86, 102, 140, 49, 235, 17, 215, 165, 105, 193, 48, 103,
        171, 222, 223, 182, 116, 103, 127, 19, 184, 141, 172, 82, 116, 192, 103, 78,
        234, 142, 213, 22, 4, 121, 234, 214, 169, 247, 158, 248, 122, 58, 29, 154,
        81, 139, 118, 103, 54, 76, 139, 20, 201, 108, 40, 12, 194, 127, 165, 3,
        206, 214, 104, 228, 107, 231, 103, 89, 99, 158, 64, 219, 226, 246, 49, 53,
        50, 236, 28, 212, 111, 54, 202, 212, 218, 223, 123, 165, 96, 106, 163, 136,
        187, 172, 127, 96, 72, 246, 212, 210, 102, 254, 2, 24, 7, 231, 182, 24,
        1, 0, 0, 31, 139, 8, 4, 0, 0, 0, 0, 0, 255, 6, 0, 66,
        67, 2, 0, 27, 0, 3, 0, 0, 0, 0, 0, 0, 0, 0, 0,
    ]
}

#[test]
fn test_read_block_func() {
    let bgzf_file = bgzf_test_file();
    match read_block(&bgzf_file, 0) {
        Ok(option_block) => match option_block {
            Some(block) => {
                assert_eq!(block.block_size, 211);
                assert_eq!(block.data_length, 185);
                assert_eq!(block.data_offset, 18);
                assert_eq!(block.input_length, 280);
            }
            None => assert!(false),
        },
        Err(_e) => assert!(false),
    }
}

#[test]
fn test_bgzf_reader_new_func() {
    let bgzf_reader = BgzfReader::new(bgzf_test_file());
    match bgzf_reader {
        Ok(reader) => {
            let expected_uncompressed_length = 280;
            assert_eq!(1, reader.block_tree().len());
            assert_eq!(expected_uncompressed_length, reader.total_uncompressed_length());
            assert_eq!(0, reader.current_read_position());

            let block = reader.block_tree().get(0);
            match block {
                Some(block) => {
                    assert_eq!(block.block_size, 211);
                    assert_eq!(block.data_length, 185);
                    assert_eq!(block.data_offset, 18);
                    assert_eq!(block.input_length, 280);
                }
                None => assert!(false),
            }
        }
        Err(_e) => assert!(false),
    }
}

#[test]
fn test_bgzf_read_method() {
    let mut reader = BgzfReader::new(bgzf_test_file()).unwrap();
    let mut content = vec![0; 10];
    match reader.read(&mut content, 0, 10) {
        Ok(val) => {
            assert_eq!(ReadOutcome::Copied(10), val);
        }
        Err(_e) => {
            assert!(false);
        }
    };
    let file_content = str::from_utf8(&content).unwrap();
    assert_eq!("This is ju", file_content);

    reader.seek(20);
    let mut content_two = vec![0; 32];
    match reader.read(&mut content_two, 0, 32) {
        Ok(val) => {
            assert_eq!(ReadOutcome::Copied(32), val);
        }
        Err(_e) => {
            assert!(false);
        }
    };
    let file_content_two = str::from_utf8(&content_two).unwrap();
    assert_eq!("test,lets see how it reacts. :).", file_content_two);
}

#[test]
fn test_seek_method() {
    let mut reader = BgzfReader::new(bgzf_test_file()).unwrap();
    reader.seek(33);
    assert_eq!(0, reader.current_read_position());
    assert_eq!(33, reader.pos());
}

#[test]
fn test_read_to() {
    let mut reader = BgzfReader::new(bgzf_test_file()).unwrap();
    let mut vec = vec![0; 52];
    let data_read = reader.read_to(&mut vec);
    assert_eq!(data_read.unwrap(), ReadOutcome::Copied(52));
    assert_eq!(
        "This is just a bgzf test,lets see how it reacts. :).",
        str::from_utf8(&vec).unwrap()
    );
}

#[test]
fn test_cache() {
    let mut reader = BgzfReader::new(bgzf_test_file()).unwrap();
    let mut vec = vec![0; 52];
    let data_read = reader.read_to(&mut vec);
    assert_eq!(data_read.unwrap(), ReadOutcome::Copied(52));
    assert_eq!(
        "This is just a bgzf test,lets see how it reacts. :).",
        str::from_utf8(&vec).unwrap()
    );

    let mut vec2 = vec![0; 119];
    let data_read_2 = reader.read_to(&mut vec2);
    assert_eq!(data_read_2.unwrap(), ReadOutcome::Copied(119));
    assert_eq!(
        " I think it will work fine, but who knows this is still a software. Unless you have tested it 100% there is no guarante",
        str::from_utf8(&vec2).unwrap()
    );

    let mut vec3 = vec![0; 2];
    let data_read_3 = reader.read_to(&mut vec3);
    assert_eq!(data_read_3.unwrap(), ReadOutcome::Copied(2));
    assert_eq!("e ", str::from_utf8(&vec3).unwrap());
}

#[test]
fn test_total_uncompressed_length() {
    let reader = BgzfReader::new(bgzf_test_file()).unwrap();
    let test_content = "This is just a bgzf test,lets see how it reacts. :). I think it will work fine, but who knows this is still a software. Unless you have tested it 100% there is no guarantee that it will work. So I am just trying to test bgzf with this text file. Have a great day software lovers. ";
    assert_eq!(
        reader.total_uncompressed_length(),
        test_content.len() as u64
    )
}

#[test]
fn test_random_access() {
    let mut reader = BgzfReader::new(bgzf_test_file()).unwrap();
    //In the uncompressed text the 29th position comes right after
    //"This is just a bgzf test,lets"
    reader.seek(29);
    let mut test_buffer = vec![0; 20];
    //reading 20 bytes to the vector test_buffer
    assert_eq!(reader.read_to(&mut test_buffer), Ok(ReadOutcome::Copied(20)));
    //the 20 bytes after 29th position in file is " see how it reacts. "
    assert_eq!(
        " see how it reacts. ",
        str::from_utf8(&test_buffer).unwrap()
    );
}

#[test]
fn fixture_whole_text_in_one_read() {
    let mut reader = BgzfReader::new(bgzf_test_file()).unwrap();
    let mut all = vec![0; 280];
    assert_eq!(reader.read_to(&mut all), Ok(ReadOutcome::Copied(280)));
    assert_eq!(
        "This is just a bgzf test,lets see how it reacts. :). I think it will work fine, but who knows this is still a software. Unless you have tested it 100% there is no guarantee that it will work. So I am just trying to test bgzf with this text file. Have a great day software lovers. ",
        str::from_utf8(&all).unwrap()
    );
    assert_eq!(reader.pos(), 280);
    assert_eq!(reader.read_to(&mut all), Ok(ReadOutcome::EndOfStream));
}

#[test]
fn fixture_three_reads_give_the_first_173_characters() {
    let text = "This is just a bgzf test,lets see how it reacts. :). I think it will work fine, but who knows this is still a software. Unless you have tested it 100% there is no guarantee that it will work. So I am just trying to test bgzf with this text file. Have a great day software lovers. ";
    let mut reader = BgzfReader::new(bgzf_test_file()).unwrap();
    let mut got: Vec<u8> = Vec::new();
    for n in [52usize, 119, 2] {
        let mut piece = vec![0; n];
        assert_eq!(reader.read_to(&mut piece), Ok(ReadOutcome::Copied(n)));
        got.extend_from_slice(&piece);
    }
    assert_eq!(got.len(), 173);
    assert_eq!(&text.as_bytes()[..173], &got[..]);
    assert_eq!(reader.decompressions(), 1);
}
