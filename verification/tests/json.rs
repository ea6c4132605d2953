use mda_core::json::{simplify_enums, Json};

fn s(x: &str) -> Json {
    Json::Str(x.to_owned())
}

fn obj(members: Vec<(&str, Json)>) -> Json {
    let mut m: Vec<(String, Json)> = members.into_iter().map(|(k, v)| (k.to_owned(), v)).collect();
    m.sort_by(|a, b| a.0.cmp(&b.0));
    Json::Object(m)
}

#[test]
fn one_of_unit_variants_become_a_string_enum_with_notes() {
    let schema = obj(vec![(
        "properties",
        obj(vec![(
            "precision",
            obj(vec![
                ("description", s("How precise.")),
                (
                    "oneOf",
                    Json::Array(vec![
                        obj(vec![("const", s("day")), ("description", s("A calendar day."))]),
                        obj(vec![("const", s("month"))]),
                        obj(vec![("const", s("year")), ("description", s("A year."))]),
                    ]),
                ),
            ]),
        )]),
    )]);
    let want = obj(vec![(
        "properties",
        obj(vec![(
            "precision",
            obj(vec![
                ("description", s("How precise. `day`: A calendar day. `year`: A year.")),
                ("enum", Json::Array(vec![s("day"), s("month"), s("year")])),
                ("type", s("string")),
            ]),
        )]),
    )]);
    assert_eq!(simplify_enums(schema), want);
}

#[test]
fn a_one_of_that_is_not_a_unit_enum_is_left_alone() {
    let schema = obj(vec![("oneOf", Json::Array(vec![obj(vec![("type", s("integer"))])]))]);
    let same = obj(vec![("oneOf", Json::Array(vec![obj(vec![("type", s("integer"))])]))]);
    assert_eq!(simplify_enums(schema), same);
    assert_eq!(simplify_enums(Json::Number("3".into())), Json::Number("3".into()));
}

#[test]
fn variants_without_descriptions_add_no_description() {
    let schema = Json::Array(vec![obj(vec![("oneOf", Json::Array(vec![obj(vec![("const", s("a"))])]))])]);
    let want = Json::Array(vec![obj(vec![("enum", Json::Array(vec![s("a")])), ("type", s("string"))])]);
    assert_eq!(simplify_enums(schema), want);
}
