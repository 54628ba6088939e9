use binding_notation::{Binding, Value, parse_binding, print_binding};

struct Test {
    string: String,
    canonical: String,
    value: Binding,
}

#[test]
fn test_parse_binding() {
    let tests = vec![
            Test {
                string: "foo=bar".to_string(),
                canonical: "foo=bar".to_string(),
                value: Binding {
                    name: "foo".to_string(),
                    values: vec![Value {
                        value: "bar".to_string(),
                        children: vec![],
                    }],
                },
            },
            Test {
                string: "foo=true".to_string(),
                canonical: "foo=true".to_string(),
                value: Binding {
                    name: "foo".to_string(),
                    values: vec![Value {
                        value: "true".to_string(),
                        children: vec![],
                    }],
                },
            },
            Test {
                string: "foo=a,b".to_string(),
                canonical: "foo=a,b".to_string(),
                value: Binding {
                    name: "foo".to_string(),
                    values: vec![
                        Value {
                            value: "a".to_string(),
                            children: vec![],
                        },
                        Value {
                            value: "b".to_string(),
                            children: vec![],
                        },
                    ],
                },
            },
            Test {
                string: "foo=bar{zoo=qat}".to_string(),
                canonical: "foo=bar{zoo=qat}".to_string(),
                value: Binding {
                    name: "foo".to_string(),
                    values: vec![Value {
                        value: "bar".to_string(),
                        children: vec![Binding {
                            name: "zoo".to_string(),
                            values: vec![Value {
                                value: "qat".to_string(),
                                children: vec![],
                            }],
                        }],
                    }],
                },
            },
            Test {
                string: "foo=bar{zoo=qat},xxx{aaa=bbb}".to_string(),
                canonical: "foo=bar{zoo=qat},xxx{aaa=bbb}".to_string(),
                value: Binding {
                    name: "foo".to_string(),
                    values: vec![
                        Value {
                            value: "bar".to_string(),
                            children: vec![Binding {
                                name: "zoo".to_string(),
                                values: vec![Value {
                                    value: "qat".to_string(),
                                    children: vec![],
                                }],
                            }],
                        },
                        Value {
                            value: "xxx".to_string(),
                            children: vec![Binding {
                                name: "aaa".to_string(),
                                values: vec![Value {
                                    value: "bbb".to_string(),
                                    children: vec![],
                                }],
                            }],
                        },
                    ],
                },
            },
            Test {
                string: "a=b{c=d{e=f}},k{l=m{n=o}}".to_string(),
                canonical: "a=b{c=d{e=f}},k{l=m{n=o}}".to_string(),
                value: Binding {
                    name: "a".to_string(),
                    values: vec![
                        Value {
                            value: "b".to_string(),
                            children: vec![Binding {
                                name: "c".to_string(),
                                values: vec![Value {
                                    value: "d".to_string(),
                                    children: vec![Binding {
                                        name: "e".to_string(),
                                        values: vec![Value {
                                            value: "f".to_string(),
                                            children: vec![],
                                        }],
                                    }],
                                }],
                            }],
                        },
                        Value {
                            value: "k".to_string(),
                            children: vec![Binding {
                                name: "l".to_string(),
                                values: vec![Value {
                                    value: "m".to_string(),
                                    children: vec![Binding {
                                        name: "n".to_string(),
                                        values: vec![Value {
                                            value: "o".to_string(),
                                            children: vec![],
                                        }],
                                    }],
                                }],
                            }],
                        },
                    ],
                },
            },
            Test {
                string: "foo=bar{zoo=qat} , xxx{aaa=bbb}".to_string(),
                canonical: "foo=bar{zoo=qat},xxx{aaa=bbb}".to_string(),
                value: Binding {
                    name: "foo".to_string(),
                    values: vec![
                        Value {
                            value: "bar".to_string(),
                            children: vec![Binding {
                                name: "zoo".to_string(),
                                values: vec![Value {
                                    value: "qat".to_string(),
                                    children: vec![],
                                }],
                            }],
                        },
                        Value {
                            value: "xxx".to_string(),
                            children: vec![Binding {
                                name: "aaa".to_string(),
                                values: vec![Value {
                                    value: "bbb".to_string(),
                                    children: vec![],
                                }],
                            }],
                        },
                    ],
                },
            },
            Test {
                string: "foo=bar{ zoo=qat}".to_string(),
                canonical: "foo=bar{zoo=qat}".to_string(),
                value: Binding {
                    name: "foo".to_string(),
                    values: vec![Value {
                        value: "bar".to_string(),
                        children: vec![Binding {
                            name: "zoo".to_string(),
                            values: vec![Value {
                                value: "qat".to_string(),
                                children: vec![],
                            }],
                        }],
                    }],
                },
            },
            Test {
                string: "foo=bar { zoo=qat }".to_string(),
                canonical: "foo=bar{zoo=qat}".to_string(),
                value: Binding {
                    name: "foo".to_string(),
                    values: vec![Value {
                        value: "bar".to_string(),
                        children: vec![Binding {
                            name: "zoo".to_string(),
                            values: vec![Value {
                                value: "qat".to_string(),
                                children: vec![],
                            }],
                        }],
                    }],
                },
            },
            Test {
                string: "foo=bar111 { zoo=qat }".to_string(),
                canonical: "foo=bar111{zoo=qat}".to_string(),
                value: Binding {
                    name: "foo".to_string(),
                    values: vec![Value {
                        value: "bar111".to_string(),
                        children: vec![Binding {
                            name: "zoo".to_string(),
                            values: vec![Value {
                                value: "qat".to_string(),
                                children: vec![],
                            }],
                        }],
                    }],
                },
            },
        ];

    for t in tests.iter() {
        assert_eq!(Ok(("", t.value.clone())), parse_binding(&t.string));
        assert_eq!(t.canonical, print_binding(&t.value));
    }
}
