use unchecked_audit::audit::find_decl_named;
use unchecked_audit::decl::{names_of_decls, Decl, Member};

fn sample_tree() -> Vec<Decl> {
    vec![
        Decl::Function(
            String::from("alpha"),
            vec![Decl::Function(String::from("alpha_inner"), vec![])],
        ),
        Decl::ImplBlock(vec![
            Member::Method(String::from("beta"), vec![]),
            Member::OtherMember,
            Member::Method(
                String::from("gamma"),
                vec![Decl::Function(String::from("gamma_inner"), vec![])],
            ),
        ]),
        Decl::OtherDecl,
        Decl::Module(vec![
            Decl::Function(String::from("delta"), vec![]),
            Decl::Module(vec![Decl::Function(String::from("epsilon"), vec![])]),
        ]),
    ]
}

#[test]
fn traversal_lists_names_in_source_order() {
    let names = names_of_decls(&sample_tree());
    assert_eq!(
        names,
        vec!["alpha", "alpha_inner", "beta", "gamma", "gamma_inner", "delta", "epsilon"]
    );
}

#[test]
fn search_reaches_methods_bodies_and_nested_modules() {
    let tree = sample_tree();
    assert!(find_decl_named(&tree, &String::from("alpha")));
    assert!(find_decl_named(&tree, &String::from("alpha_inner")));
    assert!(find_decl_named(&tree, &String::from("gamma")));
    assert!(find_decl_named(&tree, &String::from("gamma_inner")));
    assert!(find_decl_named(&tree, &String::from("epsilon")));
    assert!(!find_decl_named(&tree, &String::from("zeta")));
    assert!(!find_decl_named(&tree, &String::from("alph")));
}
