use elf_expedition::datastream::{all_distinct, Datastream};

#[test]
fn test_seeking_packet() {
    assert_eq!(
        Datastream::new("bvwbjplbgvbhsrlpgdmjqwftvncz").start_of_packet,
        5
    );
    assert_eq!(
        Datastream::new("nppdvjthqldpwncqszvftbrmjlhg").start_of_packet,
        6
    );
    assert_eq!(
        Datastream::new("nznrnfrfntjfmvfwmzdfjlvtqnbhcprsg").start_of_packet,
        10
    );
    assert_eq!(
        Datastream::new("zcfzfwzzqfrljwzlrfnpqdbhtmscgvjw").start_of_packet,
        11
    );
}

#[test]
fn test_seeking_message() {
    assert_eq!(
        Datastream::new("mjqjpqmgbljsphdztnvjfqwrcgsmlb").start_of_message,
        19
    );
    assert_eq!(
        Datastream::new("bvwbjplbgvbhsrlpgdmjqwftvncz").start_of_message,
        23
    );
    assert_eq!(
        Datastream::new("nppdvjthqldpwncqszvftbrmjlhg").start_of_message,
        23
    );
    assert_eq!(
        Datastream::new("nznrnfrfntjfmvfwmzdfjlvtqnbhcprsg").start_of_message,
        29
    );
}

#[test]
fn first_packet_of_the_sample_stream() {
    let stream = Datastream::new("mjqjpqmgbljsphdztnvjfqwrcgsmlb");
    assert_eq!(stream.start_of_packet, 7);
    assert_eq!(stream.raw, "mjqjpqmgbljsphdztnvjfqwrcgsmlb");
}

#[test]
fn streams_without_markers_give_none() {
    assert!(Datastream::find("").is_none());
    assert!(Datastream::find("abc").is_none());
    assert!(Datastream::find("aabbccddaabbccdd").is_none());
    assert!(Datastream::find("abcdabcdabcdabcdabcd").is_none());
    let stream = Datastream::find("abcdefghijklmn").unwrap();
    assert_eq!(stream.start_of_packet, 4);
    assert_eq!(stream.start_of_message, 14);
}

#[test]
fn distinct_characters() {
    assert!(all_distinct(&[]));
    assert!(all_distinct(&['a']));
    assert!(all_distinct(&['a', 'b', 'c']));
    assert!(!all_distinct(&['a', 'b', 'a']));
    assert!(!all_distinct(&['b', 'a', 'a']));
}
