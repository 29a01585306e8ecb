use json_in_type::base_types::{JSONfalse, JSONtrue};
use json_in_type::list::{
    write_json_iterator, JSONList, JSONListElem, JSONListEnd, JSONStream, ToJSONList,
};
use json_in_type::{JSONValue, Sink, SinkError};

#[test]
fn empty() {
    assert_eq!("[]", JSONListEnd {}.to_json_string());
}

#[test]
fn should_be_zero_sized() {
    assert_eq!(0, ::std::mem::size_of_val(&JSONListEnd {}));
    assert_eq!(
        0,
        ::std::mem::size_of_val(&JSONListElem::new(
            (),
            JSONListElem::new((), JSONListElem::new((), JSONListEnd {}))
        ))
    );
}

#[test]
fn singe_element() {
    assert_eq!("[1]", JSONListElem::new(1, JSONListEnd {}).to_json_string());
    assert_eq!("[1]", JSONListElem::new(1, JSONListEnd {}).to_json_string());
}

#[test]
fn multiple_elements() {
    assert_eq!(
        "[1,2]",
        JSONListElem::new(1, JSONListElem::new(2, JSONListEnd {})).to_json_string()
    );
    assert_eq!(
        "[1,2]",
        JSONListElem::new(1, JSONListElem::new(2, JSONListEnd {})).to_json_string()
    );
    assert_eq!(
        "[1,2,3,4,5]",
        JSONListElem::new(
            1,
            JSONListElem::new(
                2,
                JSONListElem::new(3, JSONListElem::new(4, JSONListElem::new(5, JSONListEnd {})))
            )
        )
        .to_json_string()
    );
}

#[test]
fn mixed_elements() {
    let my_list = JSONListElem::new(1, JSONListElem::new(true, JSONListElem::new("hello", JSONListEnd {})));
    assert_eq!("[1,true,\"hello\"]", my_list.to_json_string());
}

#[test]
fn zero_sized_elements() {
    let my_list = JSONListElem::new(
        JSONtrue,
        JSONListElem::new(JSONfalse, JSONListElem::new((), JSONListElem::new((), JSONListEnd {}))),
    );
    assert_eq!("[true,false,null,null]", my_list.to_json_string());
    assert_eq!(0, ::std::mem::size_of_val(&my_list));
}

#[test]
fn ending_of_a_list_chain() {
    let mut buffer: Vec<u8> = Vec::new();
    JSONListEnd {}.write_json_ending(&mut buffer).unwrap();
    assert_eq!(b"]".to_vec(), buffer);
    let mut buffer: Vec<u8> = Vec::new();
    JSONListElem::new(1, JSONListElem::new(2, JSONListEnd {})).write_json_ending(&mut buffer).unwrap();
    assert_eq!(b",1,2]".to_vec(), buffer);
}

#[test]
fn vectors() {
    assert_eq!("[]", (Vec::new() as Vec<u8>).to_json_string());
    assert_eq!("[7]", vec![7u8].to_json_string());
    assert_eq!("[1,2,3]", vec![1, 2, 3].to_json_string());
    assert_eq!("[null,null,null]", vec![(), (), ()].to_json_string());
    assert_eq!("[[1],[],[2,3]]", vec![vec![1], vec![], vec![2, 3]].to_json_string());
    assert_eq!("[42,42,42]", ToJSONList(vec![42u8, 42, 42]).to_json_string());
}

#[test]
fn chains_and_vectors_agree() {
    let chain = JSONListElem::new(1, JSONListElem::new(2, JSONListElem::new(3, JSONListEnd {})));
    assert_eq!(chain.to_json_buffer(), vec![1, 2, 3].to_json_buffer());
    let chain = JSONListElem::new("a\n", JSONListElem::new("é", JSONListEnd {}));
    assert_eq!(chain.to_json_buffer(), vec!["a\n", "é"].to_json_buffer());
    assert_eq!(JSONListEnd {}.to_json_buffer(), (Vec::new() as Vec<u8>).to_json_buffer());
}

#[test]
fn a_stream_is_drained_once() {
    let mut my_iter = std::iter::repeat(42).take(3);
    let mut first: Vec<u8> = Vec::new();
    write_json_iterator(&mut my_iter, &mut first).unwrap();
    assert_eq!(b"[42,42,42]".to_vec(), first);
    let mut second: Vec<u8> = Vec::new();
    write_json_iterator(&mut my_iter, &mut second).unwrap();
    assert_eq!(b"[]".to_vec(), second);
}

/// A sink that takes so many bytes and then refuses every chunk.
struct Limited {
    taken: Vec<u8>,
    room: usize,
}

impl Sink for Limited {
    fn write_all(&mut self, buf: &[u8]) -> Result<(), SinkError> {
        if buf.len() > self.room {
            return Err(SinkError::Other);
        }
        self.room -= buf.len();
        self.taken.extend_from_slice(buf);
        Ok(())
    }
}

#[test]
fn a_stream_loses_no_element() {
    let whole = b"[10,20,30]".to_vec();
    for room in 0..whole.len() {
        let mut stream = JSONStream::new(vec![10u8, 20, 30].into_iter());
        let mut sink = Limited { taken: Vec::new(), room };
        assert_eq!(Err(SinkError::Other), stream.write_json(&mut sink));
        assert!(whole.starts_with(&sink.taken));
        // What is left in the stream is what has not been written in full.
        let mut rest: Vec<u8> = Vec::new();
        stream.write_json(&mut rest).unwrap();
        let written = String::from_utf8(sink.taken.clone()).unwrap();
        let expected = match written.as_str() {
            "" | "[" => "[10,20,30]",
            "[10" | "[10," => "[20,30]",
            "[10,20" | "[10,20," => "[30]",
            _ => "[]",
        };
        assert_eq!(expected.as_bytes().to_vec(), rest);
    }
    let mut stream = JSONStream::new(vec![10u8, 20, 30].into_iter());
    let mut first: Vec<u8> = Vec::new();
    stream.write_json(&mut first).unwrap();
    assert_eq!(whole, first);
    let mut second: Vec<u8> = Vec::new();
    stream.write_json(&mut second).unwrap();
    assert_eq!(b"[]".to_vec(), second);
}

#[test]
fn an_iterator_is_not_drawn_from_before_the_bracket() {
    let mut iter = vec![1u8, 2, 3].into_iter();
    let mut sink = Limited { taken: Vec::new(), room: 0 };
    assert_eq!(Err(SinkError::Other), write_json_iterator(&mut iter, &mut sink));
    assert_eq!(vec![1u8, 2, 3], iter.collect::<Vec<u8>>());
    let mut iter = vec![1u8, 2, 3].into_iter();
    let mut sink = Limited { taken: Vec::new(), room: 2 };
    assert_eq!(Err(SinkError::Other), write_json_iterator(&mut iter, &mut sink));
    assert_eq!(b"[1".to_vec(), sink.taken);
    assert_eq!(vec![3u8], iter.collect::<Vec<u8>>());
}
