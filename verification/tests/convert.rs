use otn::chars_to_target;
use otn::html::Converter;
use otn::to_map;
use otn::to_xml;
use otn::vec_to_map;
use otn::vec_to_xml;
use otn::Target;

fn lookup<'a>(map: &'a [(String, Vec<String>)], key: &str) -> Option<&'a Vec<String>> {
    for (k, v) in map {
        if k == key {
            return Some(v);
        }
    }
    None
}

#[test]
fn map_of_full_scenario() {
    let s = "0~a:a\n+a\n|b\n|c\n0~b:a\n1~a\n2~a:b\n0~c:\n|\n|cc\n|\n";
    let (t, errs) = chars_to_target(s);
    assert!(errs.is_empty());
    let map = vec_to_map(&t, ".");
    assert_eq!(
        lookup(&map, "b.a.a"),
        Some(&vec!["b".to_string()])
    );
    assert_eq!(
        lookup(&map, "a"),
        Some(&vec!["a".to_string(), "a\nb\nc".to_string()])
    );
    assert_eq!(lookup(&map, "b"), Some(&vec!["a".to_string()]));
    assert_eq!(lookup(&map, "c"), Some(&vec!["\n\ncc\n".to_string()]));
    assert_eq!(lookup(&map, "b.a"), None);
}

#[test]
fn map_of_single_target() {
    let (t, errs) = chars_to_target("0~a:x\n1~b:y\n");
    assert!(errs.is_empty());
    let mut it = t.into_iter();
    let target = it.next().unwrap();
    let map = to_map(target, "/");
    assert_eq!(lookup(&map, "a"), Some(&vec!["x".to_string()]));
    assert_eq!(lookup(&map, "a/b"), Some(&vec!["y".to_string()]));
}

#[test]
fn map_separator_collision_overwrites() {
    // the literal key `a.b` and the path `a` -> `b` join to the same string
    let (t, errs) = chars_to_target("0~a.b:one\n0~a:\n1~b:two\n");
    assert!(errs.is_empty());
    let map = vec_to_map(&t, ".");
    assert_eq!(lookup(&map, "a.b"), Some(&vec!["two".to_string()]));
    assert_eq!(map.len(), 1);
}

#[test]
fn xml_of_simple_tree() {
    let (t, errs) = chars_to_target("0~a:x\n1~b:y\n");
    assert!(errs.is_empty());
    assert_eq!(to_xml(&t[0]), "<a>x</a><a><b>y</b></a>");
    assert_eq!(vec_to_xml(&t), "<a>x</a><a><b>y</b></a>");
}

#[test]
fn xml_repeats_tag_for_array_values() {
    let (t, errs) = chars_to_target("0~a:x\n+y\n");
    assert!(errs.is_empty());
    assert_eq!(to_xml(&t[0]), "<a>x</a><a>y</a>");
}

#[test]
fn xml_of_empty_target() {
    let t = Target::new("solo".to_string());
    assert_eq!(to_xml(&t), "");
}

#[test]
fn html_child_becomes_attribute() {
    let (t, errs) = chars_to_target("0~div:\n1~class:note\n1~p:hi\n");
    assert!(errs.is_empty());
    let conv = Converter::new();
    let mut it = t.into_iter();
    let target = it.next().unwrap();
    assert_eq!(conv.convert(target), "<div class=\"note\"><p>hi</p></div>");
}

#[test]
fn html_title_stays_element_inside_head() {
    let (t, errs) = chars_to_target("0~head:\n1~title:T\n");
    assert!(errs.is_empty());
    let conv = Converter::new();
    let mut it = t.into_iter();
    let target = it.next().unwrap();
    assert_eq!(conv.convert(target), "<head><title>T</title></head>");
}

#[test]
fn html_data_attribute() {
    let (t, errs) = chars_to_target("0~x:\n1~data-y:z\n");
    assert!(errs.is_empty());
    let conv = Converter::new();
    let mut it = t.into_iter();
    let target = it.next().unwrap();
    assert_eq!(conv.convert(target), "<x data-y=\"z\"></x>");
}

#[test]
fn html_element_specific_attribute() {
    let (t, errs) = chars_to_target("0~a:link\n1~href:u\n");
    assert!(errs.is_empty());
    let conv = Converter::new();
    let mut it = t.into_iter();
    let target = it.next().unwrap();
    assert_eq!(conv.convert(target), "<a>link</a><a href=\"u\"></a>");
}

#[test]
fn html_attribute_values_join_with_spaces() {
    let (t, errs) = chars_to_target("0~div:\n1~class:one\n+two\n");
    assert!(errs.is_empty());
    let conv = Converter::new();
    let mut it = t.into_iter();
    let target = it.next().unwrap();
    assert_eq!(conv.convert(target), "<div class=\"one two\"></div>");
}

#[test]
fn html_element_name_is_lowercased_for_table_lookup() {
    // the per-element table is keyed in lower case, so `A` must fold to `a`
    let (t, errs) = chars_to_target("0~A:x\n1~href:u\n");
    assert!(errs.is_empty());
    let conv = Converter::new();
    let mut it = t.into_iter();
    let target = it.next().unwrap();
    assert_eq!(conv.convert(target), "<A>x</A><A href=\"u\"></A>");
}
