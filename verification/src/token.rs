//! Tokens of the scripting language: a closed kind enumeration plus the
//! token record (kind, surface text, decoded literal, source line).
use vstd::prelude::*;
use vstd::string::*;

verus! {

#[derive(Debug, Clone, Copy, PartialEq, Eq, Structural)]
#[allow(non_camel_case_types)]
pub enum TokenType {
    LEFT_PAREN,
    RIGHT_PAREN,
    LEFT_BRACE,
    RIGHT_BRACE,
    STAR,
    DOT,
    COMMA,
    SEMICOLON,
    PLUS,
    MINUS,
    BANG,
    SLASH,
    EQUAL,
    EQUAL_EQUAL,
    BANG_EQUAL,
    LESS,
    LESS_EQUAL,
    GREATER,
    GREATER_EQUAL,
    STRING,
    NUMBER,
    IDENTIFIER,
    EOF,
    INVALID,
    CLASS,
    SUPER,
    THIS,
    FUN,
    RETURN,
    VAR,
    TRUE,
    FALSE,
    PRINT,
    IF,
    ELSE,
    FOR,
    WHILE,
    AND,
    OR,
    NIL,
}

pub struct Token {
    pub token_type: TokenType,
    pub lexeme: String,
    pub literal: String,
    pub line_num: u32,
}

/// Ghost image of a token: the kind together with the character sequences
/// of its surface text and decoded literal.
pub ghost struct TokenView {
    pub token_type: TokenType,
    pub lexeme: Seq<char>,
    pub literal: Seq<char>,
    pub line_num: u32,
}

impl View for Token {
    type V = TokenView;

    open spec fn view(&self) -> TokenView {
        TokenView {
            token_type: self.token_type,
            lexeme: self.lexeme@,
            literal: self.literal@,
            line_num: self.line_num,
        }
    }
}

impl Clone for Token {
    fn clone(&self) -> (res: Self)
        ensures
            res@ == self@,
    {
        Token {
            token_type: self.token_type,
            lexeme: self.lexeme.clone(),
            literal: self.literal.clone(),
            line_num: self.line_num,
        }
    }
}

/// True of the characters that may continue an identifier: ASCII letters,
/// ASCII digits and the underscore.
pub open spec fn is_word_char(c: char) -> bool {
    (48 <= c as u32 && c as u32 <= 57) || (65 <= c as u32 && c as u32 <= 90) || (97 <= c as u32
        && c as u32 <= 122) || c as u32 == 95
}

/// The kind a lone character is classified as, apart from the `=` lookahead.
pub open spec fn spec_single_kind(c: char) -> TokenType {
    if c == '/' {
        TokenType::SLASH
    } else if c == '(' {
        TokenType::LEFT_PAREN
    } else if c == ')' {
        TokenType::RIGHT_PAREN
    } else if c == '{' {
        TokenType::LEFT_BRACE
    } else if c == '}' {
        TokenType::RIGHT_BRACE
    } else if c == '*' {
        TokenType::STAR
    } else if c == '.' {
        TokenType::DOT
    } else if c == ',' {
        TokenType::COMMA
    } else if c == '+' {
        TokenType::PLUS
    } else if c == '-' {
        TokenType::MINUS
    } else if c == ';' {
        TokenType::SEMICOLON
    } else if c == '!' {
        TokenType::BANG
    } else if c == '<' {
        TokenType::LESS
    } else if c == '>' {
        TokenType::GREATER
    } else if c == '=' {
        TokenType::EQUAL
    } else if is_word_char(c) {
        TokenType::IDENTIFIER
    } else {
        TokenType::INVALID
    }
}

/// Whether `prev` combines with a following `=` into a two-character operator.
pub open spec fn combines_with_equal(prev: char) -> bool {
    prev == '!' || prev == '=' || prev == '>' || prev == '<'
}

/// The kind produced for character `c` when the previous significant
/// character was `prev`.
pub open spec fn spec_token_kind(c: char, prev: char) -> TokenType {
    if c == '=' && prev == '!' {
        TokenType::BANG_EQUAL
    } else if c == '=' && prev == '=' {
        TokenType::EQUAL_EQUAL
    } else if c == '=' && prev == '>' {
        TokenType::GREATER_EQUAL
    } else if c == '=' && prev == '<' {
        TokenType::LESS_EQUAL
    } else {
        spec_single_kind(c)
    }
}

/// The surface text produced for character `c` after `prev`.
pub open spec fn spec_token_lexeme(c: char, prev: char) -> Seq<char> {
    if c == '=' && combines_with_equal(prev) {
        seq![prev, c]
    } else {
        seq![c]
    }
}

/// The keyword kind for a given identifier text, or the fallback kind when
/// the text is no reserved word.
pub open spec fn spec_reserved_kind(lexeme: Seq<char>, fallback: TokenType) -> TokenType {
    if lexeme == "class"@ {
        TokenType::CLASS
    } else if lexeme == "super"@ {
        TokenType::SUPER
    } else if lexeme == "this"@ {
        TokenType::THIS
    } else if lexeme == "fun"@ {
        TokenType::FUN
    } else if lexeme == "return"@ {
        TokenType::RETURN
    } else if lexeme == "print"@ {
        TokenType::PRINT
    } else if lexeme == "var"@ {
        TokenType::VAR
    } else if lexeme == "true"@ {
        TokenType::TRUE
    } else if lexeme == "false"@ {
        TokenType::FALSE
    } else if lexeme == "and"@ {
        TokenType::AND
    } else if lexeme == "or"@ {
        TokenType::OR
    } else if lexeme == "if"@ {
        TokenType::IF
    } else if lexeme == "else"@ {
        TokenType::ELSE
    } else if lexeme == "for"@ {
        TokenType::FOR
    } else if lexeme == "while"@ {
        TokenType::WHILE
    } else if lexeme == "nil"@ {
        TokenType::NIL
    } else {
        fallback
    }
}

/// Relies on `String::from` for a single character: the returned string
/// holds exactly that character.
#[verifier::external_body]
pub fn char_to_string(c: char) -> (s: String)
    ensures
        s@ == seq![c],
{
    String::from(c)
}

impl Token {
    pub fn new(token_type: TokenType, lexeme: String, literal: String, line_num: u32) -> (t: Self)
        ensures
            t@ == (TokenView { token_type, lexeme: lexeme@, literal: literal@, line_num }),
    {
        Token { token_type, lexeme, literal, line_num }
    }

    /// Classifies one character, with a one-character lookbehind that turns
    /// `!` `=` `<` `>` followed by `=` into the two-character operators.
    pub fn get_token(lexeme: char, prev_lexeme: char, line_num: u32) -> (t: Self)
        ensures
            t@.token_type == spec_token_kind(lexeme, prev_lexeme),
            t@.lexeme == spec_token_lexeme(lexeme, prev_lexeme),
            t@.literal == "null"@,
            t@.line_num == line_num,
    {
        let null_lit = String::from_str("null");
        if lexeme == '=' && (prev_lexeme == '!' || prev_lexeme == '=' || prev_lexeme == '>'
            || prev_lexeme == '<') {
            let kind = if prev_lexeme == '!' {
                TokenType::BANG_EQUAL
            } else if prev_lexeme == '=' {
                TokenType::EQUAL_EQUAL
            } else if prev_lexeme == '>' {
                TokenType::GREATER_EQUAL
            } else {
                TokenType::LESS_EQUAL
            };
            let mut text = char_to_string(prev_lexeme);
            let tail = char_to_string(lexeme);
            text.append(tail.as_str());
            proof {
                assert(text@ =~= spec_token_lexeme(lexeme, prev_lexeme));
            }
            Token::new(kind, text, null_lit, line_num)
        } else {
            let text = char_to_string(lexeme);
            let kind = Token::single_kind(lexeme);
            Token::new(kind, text, null_lit, line_num)
        }
    }

    /// Whether `c` may continue an identifier.
    pub fn is_word_char_exec(c: char) -> (r: bool)
        ensures
            r == is_word_char(c),
    {
        let u: u32 = c as u32;
        (48 <= u && u <= 57) || (65 <= u && u <= 90) || (97 <= u && u <= 122) || u == 95
    }

    /// The kind of a lone character, with no lookbehind.
    pub fn single_kind(c: char) -> (k: TokenType)
        ensures
            k == spec_single_kind(c),
    {
        match c {
            '/' => TokenType::SLASH,
            '(' => TokenType::LEFT_PAREN,
            ')' => TokenType::RIGHT_PAREN,
            '{' => TokenType::LEFT_BRACE,
            '}' => TokenType::RIGHT_BRACE,
            '*' => TokenType::STAR,
            '.' => TokenType::DOT,
            ',' => TokenType::COMMA,
            '+' => TokenType::PLUS,
            '-' => TokenType::MINUS,
            ';' => TokenType::SEMICOLON,
            '!' => TokenType::BANG,
            '<' => TokenType::LESS,
            '>' => TokenType::GREATER,
            '=' => TokenType::EQUAL,
            _ => {
                let u: u32 = c as u32;
                if (48 <= u && u <= 57) || (65 <= u && u <= 90) || (97 <= u && u <= 122) || u
                    == 95 {
                    TokenType::IDENTIFIER
                } else {
                    TokenType::INVALID
                }
            },
        }
    }

    /// Reclassifies the token when its surface text is a reserved word;
    /// everything but the kind is left as it was.
    pub fn check_if_reserved(&mut self)
        ensures
            final(self)@.token_type == spec_reserved_kind(old(self)@.lexeme, old(self)@.token_type),
            final(self)@.lexeme == old(self)@.lexeme,
            final(self)@.literal == old(self)@.literal,
            final(self)@.line_num == old(self)@.line_num,
    {
        if self.lexeme == String::from_str("class") {
            self.token_type = TokenType::CLASS;
        } else if self.lexeme == String::from_str("super") {
            self.token_type = TokenType::SUPER;
        } else if self.lexeme == String::from_str("this") {
            self.token_type = TokenType::THIS;
        } else if self.lexeme == String::from_str("fun") {
            self.token_type = TokenType::FUN;
        } else if self.lexeme == String::from_str("return") {
            self.token_type = TokenType::RETURN;
        } else if self.lexeme == String::from_str("print") {
            self.token_type = TokenType::PRINT;
        } else if self.lexeme == String::from_str("var") {
            self.token_type = TokenType::VAR;
        } else if self.lexeme == String::from_str("true") {
            self.token_type = TokenType::TRUE;
        } else if self.lexeme == String::from_str("false") {
            self.token_type = TokenType::FALSE;
        } else if self.lexeme == String::from_str("and") {
            self.token_type = TokenType::AND;
        } else if self.lexeme == String::from_str("or") {
            self.token_type = TokenType::OR;
        } else if self.lexeme == String::from_str("if") {
            self.token_type = TokenType::IF;
        } else if self.lexeme == String::from_str("else") {
            self.token_type = TokenType::ELSE;
        } else if self.lexeme == String::from_str("for") {
            self.token_type = TokenType::FOR;
        } else if self.lexeme == String::from_str("while") {
            self.token_type = TokenType::WHILE;
        } else if self.lexeme == String::from_str("nil") {
            self.token_type = TokenType::NIL;
        }
    }

    /// The text a `print` statement or the evaluation mode shows for this
    /// token: the decoded literal for strings, the surface text otherwise.
    pub fn print_text(&self) -> (r: String)
        ensures
            r@ == spec_print_text(self@),
    {
        if self.token_type == TokenType::STRING {
            self.literal.clone()
        } else {
            self.lexeme.clone()
        }
    }
}

/// What printing a value shows: string values print their decoded literal,
/// every other value prints its surface text.
pub open spec fn spec_print_text(t: TokenView) -> Seq<char> {
    if t.token_type == TokenType::STRING {
        t.literal
    } else {
        t.lexeme
    }
}


/// The symbolic name of a token kind, as the token listing shows it.
pub open spec fn spec_kind_name(k: TokenType) -> Seq<char> {
    match k {
        TokenType::LEFT_PAREN => "LEFT_PAREN"@,
        TokenType::RIGHT_PAREN => "RIGHT_PAREN"@,
        TokenType::LEFT_BRACE => "LEFT_BRACE"@,
        TokenType::RIGHT_BRACE => "RIGHT_BRACE"@,
        TokenType::STAR => "STAR"@,
        TokenType::DOT => "DOT"@,
        TokenType::COMMA => "COMMA"@,
        TokenType::SEMICOLON => "SEMICOLON"@,
        TokenType::PLUS => "PLUS"@,
        TokenType::MINUS => "MINUS"@,
        TokenType::BANG => "BANG"@,
        TokenType::SLASH => "SLASH"@,
        TokenType::EQUAL => "EQUAL"@,
        TokenType::EQUAL_EQUAL => "EQUAL_EQUAL"@,
        TokenType::BANG_EQUAL => "BANG_EQUAL"@,
        TokenType::LESS => "LESS"@,
        TokenType::LESS_EQUAL => "LESS_EQUAL"@,
        TokenType::GREATER => "GREATER"@,
        TokenType::GREATER_EQUAL => "GREATER_EQUAL"@,
        TokenType::STRING => "STRING"@,
        TokenType::NUMBER => "NUMBER"@,
        TokenType::IDENTIFIER => "IDENTIFIER"@,
        TokenType::EOF => "EOF"@,
        TokenType::INVALID => "INVALID"@,
        TokenType::CLASS => "CLASS"@,
        TokenType::SUPER => "SUPER"@,
        TokenType::THIS => "THIS"@,
        TokenType::FUN => "FUN"@,
        TokenType::RETURN => "RETURN"@,
        TokenType::VAR => "VAR"@,
        TokenType::TRUE => "TRUE"@,
        TokenType::FALSE => "FALSE"@,
        TokenType::PRINT => "PRINT"@,
        TokenType::IF => "IF"@,
        TokenType::ELSE => "ELSE"@,
        TokenType::FOR => "FOR"@,
        TokenType::WHILE => "WHILE"@,
        TokenType::AND => "AND"@,
        TokenType::OR => "OR"@,
        TokenType::NIL => "NIL"@,
    }
}

impl Token {
    /// The symbolic name of this token's kind.
    pub fn kind_name(&self) -> (r: String)
        ensures
            r@ == spec_kind_name(self.token_type),
    {
        match self.token_type {
            TokenType::LEFT_PAREN => String::from_str("LEFT_PAREN"),
            TokenType::RIGHT_PAREN => String::from_str("RIGHT_PAREN"),
            TokenType::LEFT_BRACE => String::from_str("LEFT_BRACE"),
            TokenType::RIGHT_BRACE => String::from_str("RIGHT_BRACE"),
            TokenType::STAR => String::from_str("STAR"),
            TokenType::DOT => String::from_str("DOT"),
            TokenType::COMMA => String::from_str("COMMA"),
            TokenType::SEMICOLON => String::from_str("SEMICOLON"),
            TokenType::PLUS => String::from_str("PLUS"),
            TokenType::MINUS => String::from_str("MINUS"),
            TokenType::BANG => String::from_str("BANG"),
            TokenType::SLASH => String::from_str("SLASH"),
            TokenType::EQUAL => String::from_str("EQUAL"),
            TokenType::EQUAL_EQUAL => String::from_str("EQUAL_EQUAL"),
            TokenType::BANG_EQUAL => String::from_str("BANG_EQUAL"),
            TokenType::LESS => String::from_str("LESS"),
            TokenType::LESS_EQUAL => String::from_str("LESS_EQUAL"),
            TokenType::GREATER => String::from_str("GREATER"),
            TokenType::GREATER_EQUAL => String::from_str("GREATER_EQUAL"),
            TokenType::STRING => String::from_str("STRING"),
            TokenType::NUMBER => String::from_str("NUMBER"),
            TokenType::IDENTIFIER => String::from_str("IDENTIFIER"),
            TokenType::EOF => String::from_str("EOF"),
            TokenType::INVALID => String::from_str("INVALID"),
            TokenType::CLASS => String::from_str("CLASS"),
            TokenType::SUPER => String::from_str("SUPER"),
            TokenType::THIS => String::from_str("THIS"),
            TokenType::FUN => String::from_str("FUN"),
            TokenType::RETURN => String::from_str("RETURN"),
            TokenType::VAR => String::from_str("VAR"),
            TokenType::TRUE => String::from_str("TRUE"),
            TokenType::FALSE => String::from_str("FALSE"),
            TokenType::PRINT => String::from_str("PRINT"),
            TokenType::IF => String::from_str("IF"),
            TokenType::ELSE => String::from_str("ELSE"),
            TokenType::FOR => String::from_str("FOR"),
            TokenType::WHILE => String::from_str("WHILE"),
            TokenType::AND => String::from_str("AND"),
            TokenType::OR => String::from_str("OR"),
            TokenType::NIL => String::from_str("NIL"),
        }
    }

    /// One line of the token listing: the kind's name, the surface text and
    /// the decoded literal, separated by single spaces.
    pub fn describe(&self) -> (r: String)
        ensures
            r@ == spec_kind_name(self@.token_type) + seq![' '] + self@.lexeme + seq![' ']
                + self@.literal,
    {
        let mut out = self.kind_name();
        out.append(" ");
        out.append(self.lexeme.as_str());
        out.append(" ");
        out.append(self.literal.as_str());
        proof {
            reveal_strlit(" ");
            assert(out@ =~= spec_kind_name(self@.token_type) + seq![' '] + self@.lexeme
                + seq![' '] + self@.literal);
        }
        out
    }
}

} // verus!
