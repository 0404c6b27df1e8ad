use drone_net::fragmentation::{
    check_wholeness, serialize, slice_to_array, sort_by_fragment_index, Assembler, AudioSource, DefaultsRequest,
    Fragmentation, Image, Pixels,
};
use drone_net::network::Fragment;

// Test string fragmentation
#[test]
fn test1() {
    let string = "hello".to_string();
    let ser = <String as Fragmentation<String>>::fragment(string);
    let ast = [1, 104, 101, 108, 108, 111].to_vec();
    assert_eq!(ast, ser);
}

// Test serialization of string fragments
#[test]
fn test2() {
    let string = "hello".to_string();
    let fra = <String as Fragmentation<String>>::fragment(string);

    let mut ast = [0; 128];
    ast[0] = 104;
    ast[1] = 101;
    ast[2] = 108;
    ast[3] = 108;
    ast[4] = 111;

    let fr = Fragment { fragment_index: 2, total_n_fragments: 2, length: 5, data: ast };
    let ser = serialize(fra);

    for f in ser {
        if f.fragment_index != 1 {
            assert_eq!(f.data, fr.data);
            assert_eq!(f.fragment_index, fr.fragment_index);
            assert_eq!(f.length, fr.length);
            assert_eq!(f.total_n_fragments, fr.total_n_fragments);
        }
    }
}

// Test assembly of string fragments
#[test]
fn test3() {
    let dd = <String as Fragmentation<String>>::fragment("Hello".to_string());
    let mut dis = serialize(dd);
    let ass = <String as Assembler<String>>::assemble(&mut dis);
    if let Ok(rs) = ass {
        assert_eq!("Hello".to_string(), rs)
    } else {
        assert_eq!(1, 2)
    }
}

// Test sorting of fragments by index
#[test]
fn test4() {
    let fr0 = Fragment { fragment_index: 1, total_n_fragments: 4, length: 128, data: [0; 128] };
    let fr1 = Fragment::from_string(2, 4, "Hello".to_string());
    let fr2 = Fragment::from_string(3, 4, " World!\n".to_string());
    let fr3 = Fragment::from_string(4, 4, "Modefeckers!".to_string());
    let mut test_sub = vec![fr2, fr3, fr1, fr0];

    sort_by_fragment_index(&mut test_sub);
    for i in 1..test_sub.len() + 1 {
        assert_eq!(i, test_sub[i - 1].fragment_index as usize);
    }
}

#[test]
fn test6() {
    let def_req = DefaultsRequest::LOGIN;
    let def_bytes = <DefaultsRequest as Fragmentation<DefaultsRequest>>::fragment(def_req);
    let mut def_frag = serialize(def_bytes);
    if def_frag[0].fragment_index == 1 && def_frag[0].data[0] == 4 {
        let assembly = <DefaultsRequest as Assembler<DefaultsRequest>>::assemble(&mut def_frag);
        assert_eq!(assembly.clone().ok().unwrap(), def_req);
    } else {
        panic!("Fragmentation went very wrong");
    }
}

#[test]
fn from_string_copies_and_pads() {
    let f = Fragment::from_string(3, 7, "abc".to_string());
    assert_eq!(f.fragment_index, 3);
    assert_eq!(f.total_n_fragments, 7);
    assert_eq!(f.length, 3);
    assert_eq!(&f.data[0..3], b"abc");
    assert!(f.data[3..].iter().all(|b| *b == 0));
}

#[test]
fn from_string_keeps_at_most_one_fragment() {
    let long = "x".repeat(200);
    let f = Fragment::from_string(1, 1, long);
    assert_eq!(f.length, 128);
    assert!(f.data.iter().all(|b| *b == b'x'));
}

#[test]
fn serialize_long_body_in_chunks_of_128() {
    let mut datas = vec![2u8];
    datas.extend((0..300u32).map(|i| (i % 251) as u8));
    let frags = serialize(datas.clone());
    // tag fragment, then ceil(300 / 128) = 3 body fragments
    assert_eq!(frags.len(), 4);
    assert_eq!(frags[0].fragment_index, 1);
    assert_eq!(frags[0].length, 1);
    assert_eq!(frags[0].data[0], 2);
    // announced count: 300 / 128 + 1 + 1
    for (k, f) in frags.iter().enumerate() {
        assert_eq!(f.fragment_index, k as u64 + 1);
        assert_eq!(f.total_n_fragments, 4);
    }
    assert_eq!(frags[1].length, 128);
    assert_eq!(frags[2].length, 128);
    assert_eq!(frags[3].length, 44);
    assert_eq!(&frags[3].data[0..44], &datas[257..301]);
}

#[test]
fn serialize_body_of_exactly_128_bytes_in_one_fragment() {
    let mut datas = vec![1u8];
    datas.extend(std::iter::repeat(b'a').take(128));
    let frags = serialize(datas);
    assert_eq!(frags.len(), 2);
    assert_eq!(frags[1].length, 128);
    assert_eq!(frags[1].total_n_fragments, 2);
    assert!(frags[1].data.iter().all(|b| *b == b'a'));
}

#[test]
fn string_of_128_bytes_roundtrips() {
    let text = "z".repeat(128);
    let mut frags = serialize(<String as Fragmentation<String>>::fragment(text.clone()));
    frags.reverse();
    assert_eq!(<String as Assembler<String>>::assemble(&mut frags), Ok(text));
}

#[test]
fn wholeness_checksum() {
    let frags = serialize(vec![1, 10, 20]);
    assert!(check_wholeness(&frags));
    let missing = vec![frags[0]];
    assert!(!check_wholeness(&missing));
}

#[test]
fn slice_to_array_zero_fills() {
    let arr = slice_to_array(&[9, 8, 7, 6], 2);
    assert_eq!(arr[0], 9);
    assert_eq!(arr[1], 8);
    assert!(arr[2..].iter().all(|b| *b == 0));
}

#[test]
fn string_roundtrip_in_any_order() {
    let text = "a message long enough to need several fragments, ".repeat(8);
    let bytes = <String as Fragmentation<String>>::fragment(text.clone());
    let mut frags = serialize(bytes);
    frags.reverse();
    let back = <String as Assembler<String>>::assemble(&mut frags);
    assert_eq!(back, Ok(text));
}

#[test]
fn string_assembly_reports_missing_fragments() {
    let bytes = <String as Fragmentation<String>>::fragment("hello there".to_string());
    let mut frags = serialize(bytes);
    frags.remove(1);
    let back = <String as Assembler<String>>::assemble(&mut frags);
    assert_eq!(back, Err("Missing one or more fragments. Cannot reconstruct the message".to_string()));
}

#[test]
fn empty_string_fails_the_checksum() {
    let bytes = <String as Fragmentation<String>>::fragment(String::new());
    let mut frags = serialize(bytes);
    let back = <String as Assembler<String>>::assemble(&mut frags);
    assert!(back.is_err());
}

#[test]
fn defaults_every_request_roundtrips() {
    let all = [
        DefaultsRequest::LOGIN,
        DefaultsRequest::REGISTER,
        DefaultsRequest::GETALLTEXT,
        DefaultsRequest::GETALLMEDIALINKS,
        DefaultsRequest::SETUNAVAILABLE,
        DefaultsRequest::SETAVAILABLE,
        DefaultsRequest::GETALLAVAILABLE,
    ];
    for r in all {
        let bytes = <DefaultsRequest as Fragmentation<DefaultsRequest>>::fragment(r);
        assert_eq!(bytes[0], 4);
        let mut frags = serialize(bytes);
        assert_eq!(<DefaultsRequest as Assembler<DefaultsRequest>>::assemble(&mut frags), Ok(r));
    }
}

#[test]
fn defaults_codes() {
    let bytes = <DefaultsRequest as Fragmentation<DefaultsRequest>>::fragment(DefaultsRequest::GETALLAVAILABLE);
    assert_eq!(bytes, vec![4, 4]);
    let bytes = <DefaultsRequest as Fragmentation<DefaultsRequest>>::fragment(DefaultsRequest::SETUNAVAILABLE);
    assert_eq!(bytes, vec![4, 6]);
}

#[test]
fn defaults_errors() {
    let mut three = serialize(vec![4, 1]);
    three.push(three[1]);
    assert_eq!(
        <DefaultsRequest as Assembler<DefaultsRequest>>::assemble(&mut three),
        Err("Lenght of default requests must be 2".to_string())
    );
    let mut unknown = serialize(vec![4, 9]);
    assert_eq!(
        <DefaultsRequest as Assembler<DefaultsRequest>>::assemble(&mut unknown),
        Err("Default request identifier does not match".to_string())
    );
}

#[test]
fn audio_roundtrip() {
    let sound = AudioSource { bytes: (0..400u32).map(|i| (i * 7 % 256) as u8).collect() };
    let bytes = <AudioSource as Fragmentation<AudioSource>>::fragment(sound.clone());
    assert_eq!(bytes[0], 2);
    let mut frags = serialize(bytes);
    frags.swap(0, 3);
    assert_eq!(<AudioSource as Assembler<AudioSource>>::assemble(&mut frags), Ok(sound));
}

#[test]
fn image_roundtrip() {
    let mut pixels = vec![0u8; 3 * 2 * 3];
    pixels[12] = 200;
    pixels[13] = 10;
    pixels[14] = 30;
    let img = Image { width: 3, height: 2, pixels: Pixels::Rgb8(pixels) };
    let bytes = <Image as Fragmentation<Image>>::fragment(img.clone());
    assert_eq!(bytes[0], 3);
    assert_eq!(&bytes[1..9], &[137, 80, 78, 71, 13, 10, 26, 10]);
    let mut frags = serialize(bytes);
    frags.reverse();
    let back = <Image as Assembler<Image>>::assemble(&mut frags);
    assert_eq!(back, Ok(img));
}

#[test]
fn grey_image_with_alpha_roundtrips() {
    let img = Image { width: 2, height: 2, pixels: Pixels::La8(vec![1, 2, 3, 4, 5, 6, 7, 8]) };
    let mut frags = serialize(<Image as Fragmentation<Image>>::fragment(img.clone()));
    assert_eq!(<Image as Assembler<Image>>::assemble(&mut frags), Ok(img));
}

#[test]
fn sixteen_bit_images_roundtrip() {
    let grey = Image { width: 2, height: 1, pixels: Pixels::L16(vec![1000, 65535]) };
    let mut frags = serialize(<Image as Fragmentation<Image>>::fragment(grey.clone()));
    assert_eq!(<Image as Assembler<Image>>::assemble(&mut frags), Ok(grey));
    let colour = Image { width: 1, height: 2, pixels: Pixels::Rgba16(vec![1, 2, 3, 4, 258, 513, 0, 65535]) };
    let mut frags = serialize(<Image as Fragmentation<Image>>::fragment(colour.clone()));
    frags.reverse();
    assert_eq!(<Image as Assembler<Image>>::assemble(&mut frags), Ok(colour));
}

#[test]
fn image_with_too_few_pixels_is_the_tag_alone() {
    let img = Image { width: 4, height: 4, pixels: Pixels::Rgba8(vec![0; 5]) };
    assert_eq!(<Image as Fragmentation<Image>>::fragment(img), vec![3]);
}

#[test]
fn image_with_too_many_pixels_is_the_tag_alone() {
    let img = Image { width: 1, height: 1, pixels: Pixels::L8(vec![0, 0]) };
    assert_eq!(<Image as Fragmentation<Image>>::fragment(img), vec![3]);
}

#[test]
fn image_with_no_pixels_is_the_tag_alone() {
    let img = Image { width: 0, height: 0, pixels: Pixels::Rgb8(vec![]) };
    assert_eq!(<Image as Fragmentation<Image>>::fragment(img), vec![3]);
}

#[test]
fn image_of_garbage_bytes_is_refused() {
    let mut frags = serialize(vec![3, 1, 2, 3, 4]);
    let back = <Image as Assembler<Image>>::assemble(&mut frags);
    assert_eq!(back.err(), Some("Failed to reconstruct the image from fragments.".to_string()));
}
