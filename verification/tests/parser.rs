use brainfart::error::BrainfartResult;
use brainfart::expr::{Expr, ExprType, LoopBlock};
use brainfart::parser::{
    parse_input, parse_loop_block, parse_output, parse_point_dec, parse_point_inc,
    parse_tokens, parse_val_dec, parse_val_inc,
};
use brainfart::token::{Token, TokenType};

#[test]
fn parse_point_inc_new() {
    let mut exprs: Vec<Expr> = vec![Expr {
        ty: ExprType::Add(1),
        tokens: vec![Token {
            ty: TokenType::ValInc,
            line: 1,
            col: 1,
        }],
    }];
    let token: Token = Token {
        ty: TokenType::PointInc,
        line: 1,
        col: 2,
    };
    parse_point_inc(&mut exprs, token);
    assert_eq!(
        exprs,
        vec![
            Expr {
                ty: ExprType::Add(1),
                tokens: vec![Token {
                    ty: TokenType::ValInc,
                    line: 1,
                    col: 1
                }]
            },
            Expr {
                ty: ExprType::MoveRight(1),
                tokens: vec![Token {
                    ty: TokenType::PointInc,
                    line: 1,
                    col: 2
                }]
            }
        ]
    );
}

#[test]
fn parse_point_inc_append() {
    let mut exprs: Vec<Expr> = vec![Expr {
        ty: ExprType::MoveRight(1),
        tokens: vec![Token {
            ty: TokenType::PointInc,
            line: 1,
            col: 1,
        }],
    }];
    let token: Token = Token {
        ty: TokenType::PointInc,
        line: 2,
        col: 1,
    };
    parse_point_inc(&mut exprs, token);
    assert_eq!(
        exprs,
        vec![Expr {
            ty: ExprType::MoveRight(2),
            tokens: vec![
                Token {
                    ty: TokenType::PointInc,
                    line: 1,
                    col: 1,
                },
                Token {
                    ty: TokenType::PointInc,
                    line: 2,
                    col: 1,
                }
            ]
        },]
    );
}

#[test]
fn parse_point_dec_add() {
    let mut exprs: Vec<Expr> = vec![Expr {
        ty: ExprType::Add(1),
        tokens: vec![Token {
            ty: TokenType::ValInc,
            line: 3,
            col: 1,
        }],
    }];
    let token: Token = Token {
        ty: TokenType::PointDec,
        line: 3,
        col: 2,
    };
    parse_point_dec(&mut exprs, token);
    assert_eq!(
        exprs,
        vec![
            Expr {
                ty: ExprType::Add(1),
                tokens: vec![Token {
                    ty: TokenType::ValInc,
                    line: 3,
                    col: 1,
                }]
            },
            Expr {
                ty: ExprType::MoveLeft(1),
                tokens: vec![Token {
                    ty: TokenType::PointDec,
                    line: 3,
                    col: 2,
                }],
            }
        ]
    );
}

#[test]
fn parse_point_dec_append() {
    let mut exprs: Vec<Expr> = vec![Expr {
        ty: ExprType::MoveLeft(2),
        tokens: vec![
            Token {
                ty: TokenType::PointDec,
                line: 5,
                col: 1,
            },
            Token {
                ty: TokenType::PointDec,
                line: 5,
                col: 2,
            },
        ],
    }];
    let token: Token = Token {
        ty: TokenType::PointDec,
        line: 5,
        col: 3,
    };
    parse_point_dec(&mut exprs, token);
    assert_eq!(
        exprs,
        vec![Expr {
            ty: ExprType::MoveLeft(3),
            tokens: vec![
                Token {
                    ty: TokenType::PointDec,
                    line: 5,
                    col: 1,
                },
                Token {
                    ty: TokenType::PointDec,
                    line: 5,
                    col: 2,
                },
                Token {
                    ty: TokenType::PointDec,
                    line: 5,
                    col: 3
                }
            ],
        }]
    );
}

#[test]
fn parse_point_dec_cancel() {
    let mut exprs: Vec<Expr> = vec![Expr {
        ty: ExprType::MoveRight(2),
        tokens: vec![
            Token {
                ty: TokenType::PointInc,
                line: 3,
                col: 3,
            },
            Token {
                ty: TokenType::PointInc,
                line: 4,
                col: 1,
            },
        ],
    }];
    let token: Token = Token {
        ty: TokenType::PointDec,
        line: 4,
        col: 2,
    };
    parse_point_dec(&mut exprs, token);
    assert_eq!(
        exprs,
        vec![Expr {
            ty: ExprType::MoveRight(1),
            tokens: vec![Token {
                ty: TokenType::PointInc,
                line: 3,
                col: 3,
            }]
        }]
    );
}

#[test]
fn parse_point_dec_pop() {
    let mut exprs: Vec<Expr> = vec![Expr {
        ty: ExprType::MoveRight(1),
        tokens: vec![Token {
            ty: TokenType::PointInc,
            line: 3,
            col: 3,
        }],
    }];
    let token: Token = Token {
        ty: TokenType::PointDec,
        line: 4,
        col: 3,
    };
    parse_point_dec(&mut exprs, token);
    assert_eq!(exprs, vec![]);
}

#[test]
fn parse_val_inc_new() {
    let mut exprs: Vec<Expr> = vec![Expr {
        ty: ExprType::MoveRight(1),
        tokens: vec![Token {
            ty: TokenType::PointInc,
            line: 1,
            col: 1,
        }],
    }];
    let token: Token = Token {
        ty: TokenType::ValInc,
        line: 1,
        col: 2,
    };
    parse_val_inc(&mut exprs, token);
    assert_eq!(
        exprs,
        vec![
            Expr {
                ty: ExprType::MoveRight(1),
                tokens: vec![Token {
                    ty: TokenType::PointInc,
                    line: 1,
                    col: 1,
                }],
            },
            Expr {
                ty: ExprType::Add(1),
                tokens: vec![Token {
                    ty: TokenType::ValInc,
                    line: 1,
                    col: 2,
                }],
            }
        ]
    );
}

#[test]
fn parse_val_inc_append() {
    let mut exprs: Vec<Expr> = vec![Expr {
        ty: ExprType::Add(1),
        tokens: vec![Token {
            ty: TokenType::ValInc,
            line: 1,
            col: 1,
        }],
    }];
    let token: Token = Token {
        ty: TokenType::ValInc,
        line: 2,
        col: 1,
    };
    parse_val_inc(&mut exprs, token);
    assert_eq!(
        exprs,
        vec![Expr {
            ty: ExprType::Add(2),
            tokens: vec![
                Token {
                    ty: TokenType::ValInc,
                    line: 1,
                    col: 1,
                },
                Token {
                    ty: TokenType::ValInc,
                    line: 2,
                    col: 1,
                }
            ]
        }]
    );
}

#[test]
fn parse_val_dec_add() {
    let mut exprs: Vec<Expr> = vec![Expr {
        ty: ExprType::MoveRight(1),
        tokens: vec![Token {
            ty: TokenType::PointInc,
            line: 1,
            col: 1,
        }],
    }];
    let token: Token = Token {
        ty: TokenType::ValDec,
        line: 1,
        col: 2,
    };

    if let Err(e) = parse_val_dec(&mut exprs, token) {
        panic!("{}", e.message());
    }

    assert_eq!(
        exprs,
        vec![
            Expr {
                ty: ExprType::MoveRight(1),
                tokens: vec![Token {
                    ty: TokenType::PointInc,
                    line: 1,
                    col: 1,
                }],
            },
            Expr {
                ty: ExprType::Sub(1),
                tokens: vec![Token {
                    ty: TokenType::ValDec,
                    line: 1,
                    col: 2,
                }]
            }
        ]
    );
}

#[test]
fn parse_val_dec_append() {
    let mut exprs: Vec<Expr> = vec![Expr {
        ty: ExprType::Sub(1),
        tokens: vec![Token {
            ty: TokenType::ValDec,
            line: 1,
            col: 1,
        }],
    }];
    let token: Token = Token {
        ty: TokenType::ValDec,
        line: 3,
        col: 3,
    };

    if let Err(e) = parse_val_dec(&mut exprs, token) {
        panic!("{}", e.message());
    }

    assert_eq!(
        exprs,
        vec![Expr {
            ty: ExprType::Sub(2),
            tokens: vec![
                Token {
                    ty: TokenType::ValDec,
                    line: 1,
                    col: 1,
                },
                Token {
                    ty: TokenType::ValDec,
                    line: 3,
                    col: 3,
                }
            ],
        }]
    );
}

#[test]
fn parse_val_dec_cancel() {
    let mut exprs: Vec<Expr> = vec![Expr {
        ty: ExprType::Add(2),
        tokens: vec![
            Token {
                ty: TokenType::ValInc,
                line: 1,
                col: 1,
            },
            Token {
                ty: TokenType::ValInc,
                line: 1,
                col: 2,
            },
        ],
    }];
    let token: Token = Token {
        ty: TokenType::ValDec,
        line: 1,
        col: 3,
    };

    if let Err(e) = parse_val_dec(&mut exprs, token) {
        panic!("{}", e.message());
    }

    assert_eq!(
        exprs,
        vec![Expr {
            ty: ExprType::Add(1),
            tokens: vec![Token {
                ty: TokenType::ValInc,
                line: 1,
                col: 1
            }]
        }]
    );
}

#[test]
fn parse_val_dec_pop() {
    let mut exprs: Vec<Expr> = vec![Expr {
        ty: ExprType::Add(1),
        tokens: vec![Token {
            ty: TokenType::ValInc,
            line: 1,
            col: 1,
        }],
    }];
    let token: Token = Token {
        ty: TokenType::ValDec,
        line: 2,
        col: 1,
    };

    if let Err(e) = parse_val_dec(&mut exprs, token) {
        panic!("{}", e.message());
    }

    assert_eq!(exprs, vec![]);
}

#[test]
fn parse_output_add() {
    let mut exprs: Vec<Expr> = vec![Expr {
        ty: ExprType::MoveRight(1),
        tokens: vec![Token {
            ty: TokenType::PointInc,
            line: 10,
            col: 1,
        }],
    }];
    let token: Token = Token {
        ty: TokenType::Output,
        line: 10,
        col: 2,
    };
    parse_output(&mut exprs, token);
    assert_eq!(
        exprs,
        vec![
            Expr {
                ty: ExprType::MoveRight(1),
                tokens: vec![Token {
                    ty: TokenType::PointInc,
                    line: 10,
                    col: 1,
                }],
            },
            Expr {
                ty: ExprType::Output(1),
                tokens: vec![Token {
                    ty: TokenType::Output,
                    line: 10,
                    col: 2,
                }]
            }
        ]
    );
}

#[test]
fn parse_output_append() {
    let mut exprs: Vec<Expr> = vec![Expr {
        ty: ExprType::Output(1),
        tokens: vec![Token {
            ty: TokenType::Output,
            line: 1,
            col: 3,
        }],
    }];
    let token: Token = Token {
        ty: TokenType::Output,
        line: 1,
        col: 4,
    };
    parse_output(&mut exprs, token);
    assert_eq!(
        exprs,
        vec![Expr {
            ty: ExprType::Output(2),
            tokens: vec![
                Token {
                    ty: TokenType::Output,
                    line: 1,
                    col: 3,
                },
                Token {
                    ty: TokenType::Output,
                    line: 1,
                    col: 4,
                }
            ]
        },]
    );
}

#[test]
fn parse_input_add() {
    let mut exprs: Vec<Expr> = vec![Expr {
        ty: ExprType::MoveRight(1),
        tokens: vec![Token {
            ty: TokenType::PointInc,
            line: 10,
            col: 1,
        }],
    }];
    let token: Token = Token {
        ty: TokenType::Input,
        line: 10,
        col: 2,
    };
    parse_input(&mut exprs, token);
    assert_eq!(
        exprs,
        vec![
            Expr {
                ty: ExprType::MoveRight(1),
                tokens: vec![Token {
                    ty: TokenType::PointInc,
                    line: 10,
                    col: 1,
                }],
            },
            Expr {
                ty: ExprType::Input(1),
                tokens: vec![Token {
                    ty: TokenType::Input,
                    line: 10,
                    col: 2,
                }]
            }
        ]
    );
}

#[test]
fn parse_input_append() {
    let mut exprs: Vec<Expr> = vec![Expr {
        ty: ExprType::Input(1),
        tokens: vec![Token {
            ty: TokenType::Input,
            line: 1,
            col: 3,
        }],
    }];
    let token: Token = Token {
        ty: TokenType::Input,
        line: 1,
        col: 4,
    };
    parse_input(&mut exprs, token);
    assert_eq!(
        exprs,
        vec![Expr {
            ty: ExprType::Input(2),
            tokens: vec![
                Token {
                    ty: TokenType::Input,
                    line: 1,
                    col: 3,
                },
                Token {
                    ty: TokenType::Input,
                    line: 1,
                    col: 4,
                }
            ]
        },]
    );
}

#[test]
fn parse_loop_block_add() {
    let mut exprs: Vec<Expr> = vec![Expr {
        ty: ExprType::Add(1),
        tokens: vec![Token {
            ty: TokenType::ValInc,
            line: 1,
            col: 1,
        }],
    }];
    let _already_consumed_token: Token = Token {
        ty: TokenType::IfZero,
        line: 1,
        col: 2,
    };
    let tokens: Vec<Token> = vec![
        Token {
            ty: TokenType::PointInc,
            line: 1,
            col: 3,
        },
        Token {
            ty: TokenType::IfNonZero,
            line: 1,
            col: 4,
        },
    ];
    let mut pos: usize = 0;

    if let Err(e) = parse_loop_block(&mut exprs, &tokens, &mut pos) {
        panic!("{}", e.message());
    }

    assert_eq!(
        exprs,
        vec![
            Expr {
                ty: ExprType::Add(1),
                tokens: vec![Token {
                    ty: TokenType::ValInc,
                    line: 1,
                    col: 1
                }]
            },
            Expr {
                ty: ExprType::LoopBlock(Box::new(LoopBlock {
                    exprs: vec![Expr {
                        ty: ExprType::MoveRight(1),
                        tokens: vec![Token {
                            ty: TokenType::PointInc,
                            line: 1,
                            col: 3,
                        }],
                    }],
                })),
                tokens: vec![],
            }
        ]
    );
}

#[test]
fn parse_set() {
    let tokens: Vec<Token> = vec![
        Token {
            ty: TokenType::IfZero,
            line: 1,
            col: 1,
        },
        Token {
            ty: TokenType::ValDec,
            line: 1,
            col: 2,
        },
        Token {
            ty: TokenType::IfNonZero,
            line: 1,
            col: 3,
        },
    ];
    let result: BrainfartResult<Vec<Expr>> = parse_tokens(tokens);
    match result {
        Ok(exprs) => {
            assert_eq!(
                exprs,
                vec![Expr {
                    ty: ExprType::Assign(0),
                    tokens: vec![Token {
                        ty: TokenType::ValDec,
                        line: 1,
                        col: 2
                    },],
                }]
            );
        }
        Err(e) => panic!("{}", e.message()),
    }
}

#[test]
fn parse_set_one() {
    let tokens: Vec<Token> = vec![
        Token {
            ty: TokenType::IfZero,
            line: 1,
            col: 1,
        },
        Token {
            ty: TokenType::ValDec,
            line: 1,
            col: 2,
        },
        Token {
            ty: TokenType::IfNonZero,
            line: 1,
            col: 3,
        },
        Token {
            ty: TokenType::ValInc,
            line: 1,
            col: 4,
        },
    ];
    let result: BrainfartResult<Vec<Expr>> = parse_tokens(tokens);
    match result {
        Ok(exprs) => {
            assert_eq!(
                exprs,
                vec![Expr {
                    ty: ExprType::Assign(1),
                    tokens: vec![
                        Token {
                            ty: TokenType::ValDec,
                            line: 1,
                            col: 2
                        },
                        Token {
                            ty: TokenType::ValInc,
                            line: 1,
                            col: 4
                        }
                    ],
                }]
            );
        }
        Err(e) => panic!("{}", e.message()),
    }
}

#[test]
// LoopBlock MoveLeft case [<]
fn parse_lb_mvl() {
    let tokens = vec![
        Token {
            ty: TokenType::IfZero,
            line: 1,
            col: 1,
        },
        Token {
            ty: TokenType::PointDec,
            line: 1,
            col: 2,
        },
        Token {
            ty: TokenType::IfNonZero,
            line: 1,
            col: 3,
        },
        Token {
            ty: TokenType::PointDec,
            line: 1,
            col: 4,
        },
    ];
    let result = parse_tokens(tokens);
    match result {
        Ok(exprs) => {
            assert_eq!(
                exprs,
                vec![
                    Expr {
                        ty: ExprType::LoopBlock(Box::new(LoopBlock {
                            exprs: vec![Expr {
                                ty: ExprType::MoveLeft(1),
                                tokens: vec![Token {
                                    ty: TokenType::PointDec,
                                    line: 1,
                                    col: 2,
                                }],
                            }],
                        })),
                        tokens: vec![],
                    },
                    Expr {
                        ty: ExprType::MoveLeft(1),
                        tokens: vec![Token {
                            ty: TokenType::PointDec,
                            line: 1,
                            col: 4,
                        }],
                    }
                ]
            );
        }
        Err(e) => panic!("{}", e.message()),
    }
}

#[test]
// LoopBlock MoveRight case [<]
fn parse_lb_mvr() {
    let tokens = vec![
        Token {
            ty: TokenType::IfZero,
            line: 1,
            col: 1,
        },
        Token {
            ty: TokenType::PointInc,
            line: 1,
            col: 2,
        },
        Token {
            ty: TokenType::IfNonZero,
            line: 1,
            col: 3,
        },
        Token {
            ty: TokenType::PointInc,
            line: 1,
            col: 4,
        },
    ];
    let result = parse_tokens(tokens);
    match result {
        Ok(exprs) => {
            assert_eq!(
                exprs,
                vec![
                    Expr {
                        ty: ExprType::LoopBlock(Box::new(LoopBlock {
                            exprs: vec![Expr {
                                ty: ExprType::MoveRight(1),
                                tokens: vec![Token {
                                    ty: TokenType::PointInc,
                                    line: 1,
                                    col: 2,
                                }],
                            }],
                        })),
                        tokens: vec![],
                    },
                    Expr {
                        ty: ExprType::MoveRight(1),
                        tokens: vec![Token {
                            ty: TokenType::PointInc,
                            line: 1,
                            col: 4,
                        }],
                    }
                ]
            );
        }
        Err(e) => panic!("{}", e.message()),
    }
}
