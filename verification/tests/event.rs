use loro_core::container::{ContainerID, ContainerType};
use loro_core::content::{
    ContentType, HasLength, InsertContentTrait, ListInsertContent, LoroValue, Mergable, Sliceable,
};
use loro_core::event::{Compose, DeltaType, Diff, Index, Meta, ObserverOptions, Utf16Meta};
use loro_core::id::ID;

#[derive(Clone, Debug, PartialEq, Default)]
struct Steps(Vec<u32>);

impl Compose for Steps {
    fn compose(mut self, later: Self) -> Self {
        self.0.extend(later.0);
        self
    }
}

type TestDiff = Diff<Steps, Steps, Steps, Steps, Steps>;

fn steps(values: &[u32]) -> Steps {
    Steps(values.to_vec())
}

#[test]
fn utf16_meta_knows_its_length_or_not() {
    assert_eq!(Utf16Meta::new(4).utf16_len, Some(4));
    assert_eq!(Utf16Meta::empty().utf16_len, None);
    assert_eq!(Utf16Meta::default().utf16_len, None);
    assert!(Utf16Meta::empty().is_empty());
    assert!(!Utf16Meta::new(0).is_empty());
    assert!(Utf16Meta::new(1).is_mergeable(&Utf16Meta::empty()));
}

#[test]
fn utf16_meta_take_shortens_a_known_length() {
    let mut meta = Utf16Meta::new(5);
    assert_eq!(meta.take(&Utf16Meta::new(2)), Utf16Meta::new(2));
    assert_eq!(meta, Utf16Meta::new(3));
    assert_eq!(meta.take(&Utf16Meta::empty()), Utf16Meta::empty());
    assert_eq!(meta, Utf16Meta::new(3));
    assert_eq!(meta.take(&Utf16Meta::new(3)), Utf16Meta::new(3));
    assert_eq!(meta, Utf16Meta::new(0));
    let mut unknown = Utf16Meta::empty();
    assert_eq!(unknown.take(&Utf16Meta::new(9)), Utf16Meta::new(9));
    assert_eq!(unknown, Utf16Meta::empty());
}

#[test]
fn utf16_meta_merge_adds_known_lengths() {
    let mut meta = Utf16Meta::new(5);
    meta.merge(&Utf16Meta::new(2));
    assert_eq!(meta, Utf16Meta::new(7));
    meta.merge(&Utf16Meta::empty());
    assert_eq!(meta, Utf16Meta::empty());
    meta.merge(&Utf16Meta::new(2));
    assert_eq!(meta, Utf16Meta::empty());
    let mut other = Utf16Meta::new(1);
    other.compose(&Utf16Meta::new(8), (DeltaType::Retain, DeltaType::Insert));
    assert_eq!(other, Utf16Meta::new(1));
}

#[test]
fn diffs_of_one_kind_compose() {
    let composed = TestDiff::List(steps(&[1])).compose(Diff::List(steps(&[2, 3])));
    assert!(matches!(composed, Ok(Diff::List(delta)) if delta == steps(&[1, 2, 3])));
    let composed = TestDiff::SeqRaw(steps(&[1])).compose(Diff::SeqRaw(steps(&[2])));
    assert!(matches!(composed, Ok(Diff::SeqRaw(delta)) if delta == steps(&[1, 2])));
    let composed = TestDiff::Text(steps(&[4])).compose(Diff::Text(steps(&[5])));
    assert!(matches!(composed, Ok(Diff::Text(delta)) if delta == steps(&[4, 5])));
    let composed = TestDiff::MapDiff(steps(&[6])).compose(Diff::MapDiff(steps(&[])));
    assert!(matches!(composed, Ok(Diff::MapDiff(delta)) if delta == steps(&[6])));
    let composed = TestDiff::NewMap(steps(&[])).compose(Diff::NewMap(steps(&[7])));
    assert!(matches!(composed, Ok(Diff::NewMap(delta)) if delta == steps(&[7])));
}

#[test]
fn diffs_of_two_kinds_do_not_compose() {
    let refused = TestDiff::List(steps(&[1])).compose(Diff::Text(steps(&[2])));
    assert!(matches!(refused, Err(Diff::List(delta)) if delta == steps(&[1])));
    let refused = TestDiff::NewMap(steps(&[3])).compose(Diff::MapDiff(steps(&[2])));
    assert!(matches!(refused, Err(Diff::NewMap(delta)) if delta == steps(&[3])));
    // raw sequences in UTF-16 units never compose
    let refused = TestDiff::SeqRawUtf16(steps(&[1])).compose(Diff::SeqRawUtf16(steps(&[2])));
    assert!(matches!(refused, Err(Diff::SeqRawUtf16(delta)) if delta == steps(&[1])));
    assert!(matches!(TestDiff::default(), Diff::List(delta) if delta == steps(&[])));
}

#[test]
fn observer_options_are_built_step_by_step() {
    let options = ObserverOptions::default();
    assert!(options.root());
    assert!(!options.deep());
    assert!(!options.once());
    assert_eq!(options.container(), &None);
    let container = ContainerID::Normal(ID::new(2, 9));
    let options = options.with_container(container.clone());
    assert!(!options.root());
    assert_eq!(options.container(), &Some(container.clone()));
    let options = options.with_once(true).with_deep(true);
    assert!(options.once());
    assert!(options.deep());
    assert_eq!(options.container(), &Some(container));
    let options = options.with_once(false);
    assert!(!options.once());
    assert!(options.deep());
}

#[test]
fn container_ids_name_roots_and_created_containers() {
    let root = ContainerID::Root { name: "notes".to_string(), container_type: ContainerType::Text };
    assert!(root.is_root());
    assert!(!ContainerID::Normal(ID::new(0, 0)).is_root());
    assert_ne!(
        root,
        ContainerID::Root { name: "notes".to_string(), container_type: ContainerType::List }
    );
    assert_eq!(Index::Key("a".to_string()), Index::Key("a".to_string()));
    assert_ne!(Index::SeqIndex(1), Index::SeqIndex(2));
}

#[test]
fn list_insert_content_is_a_single_atom() {
    let content = ListInsertContent { key: 7, value: LoroValue::String("x".to_string()) };
    assert_eq!(content.content_len(), 1);
    assert_eq!(content.slice(0, 1), content);
    assert_eq!(content.clone(), content);
    assert!(!content.is_mergable(&content));
    assert_eq!(content.id(), ContentType::Mapping);
    let other = ListInsertContent { key: 7, value: LoroValue::I32(3) };
    assert_ne!(other, content);
    assert_eq!(LoroValue::Bool(true).clone(), LoroValue::Bool(true));
    assert_eq!(LoroValue::Null.clone(), LoroValue::Null);
}
