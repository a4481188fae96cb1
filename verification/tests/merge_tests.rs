use lsm::error::LsmError;
use lsm::iterators::merge_iterator::MergeIterator;
use lsm::iterators::two_merge_iterator::TwoMergeIterator;
use lsm::iterators::StorageIterator;
use lsm::lsm_iterator::FusedIterator;

#[derive(Clone)]
pub struct MockIterator {
    pub data: Vec<(Vec<u8>, Vec<u8>)>,
    pub index: usize,
    pub fails_at: Option<usize>,
}

impl MockIterator {
    pub fn new(data: Vec<(&str, &str)>) -> Self {
        Self {
            data: data
                .into_iter()
                .map(|(k, v)| (k.as_bytes().to_vec(), v.as_bytes().to_vec()))
                .collect(),
            index: 0,
            fails_at: None,
        }
    }

    pub fn failing_at(mut self, index: usize) -> Self {
        self.fails_at = Some(index);
        self
    }
}

impl StorageIterator for MockIterator {
    fn wf(&self) -> bool {
        unreachable!()
    }

    fn remaining(&self) -> vstd::seq::Seq<(vstd::seq::Seq<u8>, vstd::seq::Seq<u8>)> {
        unreachable!()
    }

    fn infallible() -> bool {
        unreachable!()
    }

    fn lemma_remaining_sorted(&self) {
        unreachable!()
    }

    fn value(&self) -> &[u8] {
        &self.data[self.index].1
    }

    fn key(&self) -> &[u8] {
        &self.data[self.index].0
    }

    fn is_valid(&self) -> bool {
        self.index < self.data.len()
    }

    fn next(&mut self) -> Result<(), LsmError> {
        if self.fails_at == Some(self.index) {
            return Err(LsmError::TooLarge);
        }
        if self.index < self.data.len() {
            self.index += 1;
        }
        Ok(())
    }
}

fn collect<I: StorageIterator>(iter: &mut I) -> Vec<(String, String)> {
    let mut out = Vec::new();
    while iter.is_valid() {
        out.push((
            String::from_utf8(iter.key().to_vec()).unwrap(),
            String::from_utf8(iter.value().to_vec()).unwrap(),
        ));
        iter.next().unwrap();
    }
    out
}

fn pairs(data: Vec<(&str, &str)>) -> Vec<(String, String)> {
    data.into_iter().map(|(k, v)| (k.to_string(), v.to_string())).collect()
}

#[test]
fn merge_prefers_the_earlier_cursor() {
    let iter0 = MockIterator::new(vec![("a", "A0"), ("c", "C0")]);
    let iter1 = MockIterator::new(vec![("a", "A1"), ("b", "B1"), ("c", "C1")]);
    let mut merged = MergeIterator::create(vec![Box::new(iter0), Box::new(iter1)]);
    assert_eq!(
        collect(&mut merged),
        pairs(vec![("a", "A0"), ("b", "B1"), ("c", "C0")])
    );
}

#[test]
fn merge_of_three_in_every_order() {
    let i1 = MockIterator::new(vec![("a", "1.1"), ("b", "2.1"), ("c", "3.1")]);
    let i2 = MockIterator::new(vec![("a", "1.2"), ("b", "2.2"), ("c", "3.2"), ("d", "4.2")]);
    let i3 = MockIterator::new(vec![("b", "2.3"), ("c", "3.3"), ("d", "4.3")]);
    let mut merged = MergeIterator::create(vec![
        Box::new(i1.clone()),
        Box::new(i2.clone()),
        Box::new(i3.clone()),
    ]);
    assert_eq!(
        collect(&mut merged),
        pairs(vec![("a", "1.1"), ("b", "2.1"), ("c", "3.1"), ("d", "4.2")])
    );
    let mut merged = MergeIterator::create(vec![Box::new(i3), Box::new(i1), Box::new(i2)]);
    assert_eq!(
        collect(&mut merged),
        pairs(vec![("a", "1.1"), ("b", "2.3"), ("c", "3.3"), ("d", "4.3")])
    );
}

#[test]
fn merge_gives_every_key_once() {
    let mut sources = Vec::new();
    for s in 0..7usize {
        let data: Vec<(Vec<u8>, Vec<u8>)> = (0..50usize)
            .filter(|i| (i + s) % (s + 2) != 0)
            .map(|i| (format!("k{:03}", i).into_bytes(), format!("{}:{}", s, i).into_bytes()))
            .collect();
        sources.push(data);
    }
    let iters = sources
        .iter()
        .map(|data| Box::new(MockIterator { data: data.clone(), index: 0, fails_at: None }))
        .collect();
    let mut merged = MergeIterator::create(iters);
    let out = collect(&mut merged);
    let mut expected = Vec::new();
    for i in 0..50usize {
        let key = format!("k{:03}", i);
        for data in &sources {
            if let Some((_, v)) = data.iter().find(|(k, _)| k == key.as_bytes()) {
                expected.push((key.clone(), String::from_utf8(v.clone()).unwrap()));
                break;
            }
        }
    }
    assert_eq!(out, expected);
}

#[test]
fn merge_of_nothing_is_not_valid() {
    let mut merged = MergeIterator::<MockIterator>::create(vec![]);
    assert!(!merged.is_valid());
    assert!(merged.key().is_empty());
    assert!(merged.value().is_empty());
    merged.next().unwrap();
    assert!(!merged.is_valid());
}

#[test]
fn merge_of_empty_cursors_is_not_valid() {
    let mut merged = MergeIterator::create(vec![
        Box::new(MockIterator::new(vec![])),
        Box::new(MockIterator::new(vec![])),
    ]);
    assert!(!merged.is_valid());
    merged.next().unwrap();
    assert!(!merged.is_valid());
    let mut merged = MergeIterator::create(vec![
        Box::new(MockIterator::new(vec![])),
        Box::new(MockIterator::new(vec![("a", "1")])),
        Box::new(MockIterator::new(vec![])),
    ]);
    assert_eq!(collect(&mut merged), pairs(vec![("a", "1")]));
}

#[test]
fn merge_hands_on_the_failure_of_a_cursor() {
    let good = MockIterator::new(vec![("a", "1"), ("b", "2")]);
    let bad = MockIterator::new(vec![("a", "x"), ("c", "y")]).failing_at(0);
    let mut merged = MergeIterator::create(vec![Box::new(good), Box::new(bad)]);
    assert!(merged.is_valid());
    assert_eq!(merged.key(), b"a");
    assert_eq!(merged.next(), Err(LsmError::TooLarge));
    // the cursor that failed has left the merge
    assert_eq!(merged.value(), b"1");
    merged.next().unwrap();
    assert_eq!(merged.key(), b"b");
    merged.next().unwrap();
    assert!(!merged.is_valid());
}

#[test]
fn two_merge_prefers_a() {
    let a = MockIterator::new(vec![("a", "1.1"), ("b", "2.1"), ("c", "3.1")]);
    let b = MockIterator::new(vec![("a", "1.2"), ("b", "2.2"), ("c", "3.2"), ("d", "4.2")]);
    let mut merged = TwoMergeIterator::create(a.clone(), b.clone()).unwrap();
    assert_eq!(
        collect(&mut merged),
        pairs(vec![("a", "1.1"), ("b", "2.1"), ("c", "3.1"), ("d", "4.2")])
    );
    let mut merged = TwoMergeIterator::create(b, a).unwrap();
    assert_eq!(
        collect(&mut merged),
        pairs(vec![("a", "1.2"), ("b", "2.2"), ("c", "3.2"), ("d", "4.2")])
    );
}

#[test]
fn two_merge_interleaves() {
    let a = MockIterator::new(vec![("b", "B"), ("d", "D"), ("f", "F")]);
    let b = MockIterator::new(vec![("a", "a"), ("c", "c"), ("d", "d"), ("g", "g")]);
    let mut merged = TwoMergeIterator::create(a, b).unwrap();
    assert_eq!(
        collect(&mut merged),
        pairs(vec![("a", "a"), ("b", "B"), ("c", "c"), ("d", "D"), ("f", "F"), ("g", "g")])
    );
}

#[test]
fn two_merge_with_an_empty_side() {
    let full = MockIterator::new(vec![("a", "1"), ("b", "2")]);
    let none = MockIterator::new(vec![]);
    let mut merged = TwoMergeIterator::create(full.clone(), none.clone()).unwrap();
    assert_eq!(collect(&mut merged), pairs(vec![("a", "1"), ("b", "2")]));
    let mut merged = TwoMergeIterator::create(none.clone(), full).unwrap();
    assert_eq!(collect(&mut merged), pairs(vec![("a", "1"), ("b", "2")]));
    let merged = TwoMergeIterator::create(none.clone(), none).unwrap();
    assert!(!merged.is_valid());
}

#[test]
fn two_merge_hands_on_the_failure_of_a_cursor() {
    let a = MockIterator::new(vec![("a", "1")]);
    let b = MockIterator::new(vec![("a", "2")]).failing_at(0);
    assert_eq!(TwoMergeIterator::create(a, b).err(), Some(LsmError::TooLarge));
}

#[test]
fn fused_cursor_stays_at_the_end() {
    let mut fused = FusedIterator::new(MockIterator::new(vec![("a", "1")]).failing_at(1));
    assert!(fused.is_valid());
    assert_eq!(fused.key(), b"a");
    assert_eq!(fused.value(), b"1");
    fused.next().unwrap();
    assert!(!fused.is_valid());
    // the cursor inside would fail here
    fused.next().unwrap();
    fused.next().unwrap();
    assert!(!fused.is_valid());
}

#[test]
fn error_has_a_message() {
    assert_eq!(LsmError::Format.message(), "malformed table or block");
    assert_eq!(LsmError::TooLarge.message(), "table too large");
}

#[test]
fn merge_of_many_cursors() {
    // cursor s holds the multiples of s + 1 below 400, with its place as the value
    let mut sources = Vec::new();
    for s in 0..40usize {
        let data: Vec<(Vec<u8>, Vec<u8>)> = (0..400usize)
            .filter(|i| i % (s + 1) == 0)
            .map(|i| (format!("{:04}", i).into_bytes(), format!("{}", s).into_bytes()))
            .collect();
        sources.push(data);
    }
    // the cursors come in an order of their own: 39, 0, 38, 1, ...
    let order: Vec<usize> = (0..40usize).map(|i| if i % 2 == 0 { 39 - i / 2 } else { i / 2 }).collect();
    let iters = order
        .iter()
        .map(|s| Box::new(MockIterator { data: sources[*s].clone(), index: 0, fails_at: None }))
        .collect();
    let mut merged = MergeIterator::create(iters);
    let out = collect(&mut merged);
    assert_eq!(out.len(), 400);
    for (i, (key, value)) in out.iter().enumerate() {
        assert_eq!(key, &format!("{:04}", i));
        // the first cursor in that order that holds the key
        let first = order.iter().find(|s| i % (**s + 1) == 0).unwrap();
        assert_eq!(value, &format!("{}", first));
    }
    merged.next().unwrap();
    assert!(!merged.is_valid());
}

#[test]
fn merge_of_cursors_with_the_same_entries() {
    let iters = (0..9)
        .map(|_| Box::new(MockIterator::new(vec![("a", "1"), ("b", "2"), ("c", "3")])))
        .collect();
    let mut merged = MergeIterator::create(iters);
    assert_eq!(collect(&mut merged), pairs(vec![("a", "1"), ("b", "2"), ("c", "3")]));
}
