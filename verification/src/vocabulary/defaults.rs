//! The default terms and the ways they are heard.
use vstd::prelude::*;

use crate::text;
use crate::vocabulary;
use crate::vocabulary::{Entry, EntryView, ReplacementView};

verus! {

/// The terms of technology at large: on each row a term and a way it is heard, or none
/// where only the term itself is known.
pub const TECH: [(&'static str, &'static str); 51] = [
    ("OSINT", "OSIT"),
    ("OSINT", "O S I N T"),
    ("Wispr Flow", "Whisper flow"),
    ("Wispr Flow", "Whisperflow"),
    ("Wispr Flow", "Wisper flow"),
    ("GitHub", "Git hub"),
    ("GitHub", "Get hub"),
    ("GitHub", "Github"),
    ("GitLab", "Git lab"),
    ("GitLab", "Gitlab"),
    ("Kubernetes", "Cooper Netties"),
    ("Kubernetes", "Kuber Nettes"),
    ("Kubernetes", "Kubernetties"),
    ("Kubernetes", "Kubernettes"),
    ("YAML", "Yamel"),
    ("Nginx", "Engine X"),
    ("Nginx", "Engine-X"),
    ("Nginx", "EngineX"),
    ("Postgres", "Post Gres"),
    ("Postgres", "Postgress"),
    ("SQLite", "Sequel light"),
    ("SQLite", "SQL light"),
    ("SQLite", "Sequel lite"),
    ("Ollama", "Olama"),
    ("Ollama", "Olamma"),
    ("Tailscale", "Tail scale"),
    ("Tailscale", "Tailscail"),
    ("Cloudflare", "Cloud flare"),
    ("Vercel", "Versel"),
    ("Neovim", "Neo vim"),
    ("Neovim", "Neovim"),
    ("Neovim", "NeoVim"),
    ("VS Code", "V S Code"),
    ("VS Code", "VSCode"),
    ("VS Code", "VS code"),
    ("TypeScript", "Type script"),
    ("TypeScript", "Typescript"),
    ("JavaScript", "Java script"),
    ("JavaScript", "Javascript"),
    ("npm", "N P M"),
    ("API", ""),
    ("CPU", ""),
    ("GPU", ""),
    ("SSD", ""),
    ("SSH", ""),
    ("NVMe", "N V M E"),
    ("NVMe", "NVME"),
    ("NVIDIA", ""),
    ("LLM", "L L M"),
    ("macOS", "Mac OS"),
    ("macOS", "MacOS"),
];

/// The terms of Linux.
pub const LINUX: [(&'static str, &'static str); 35] = [
    ("Linux", "Linox"),
    ("Linux", "Linucks"),
    ("Arch Linux", "Arch Linox"),
    ("Ubuntu", "Ubunto"),
    ("Ubuntu", "Oobuntu"),
    ("Ubuntu", "Uboontu"),
    ("Debian", ""),
    ("NixOS", "Nix OS"),
    ("NixOS", "Nicks OS"),
    ("Wayland", "Way land"),
    ("PipeWire", "Pipe wire"),
    ("PipeWire", "Pipewire"),
    ("PulseAudio", "Pulse audio"),
    ("systemd", "System D"),
    ("systemd", "SystemD"),
    ("sudo", ""),
    ("pacman", "Pac-Man"),
    ("pacman", "Pacman"),
    ("AUR", "A U R"),
    ("AUR", "A.U.R."),
    ("tmux", "T mux"),
    ("tmux", "Tee mux"),
    ("tmux", "Teamux"),
    ("btop", "B top"),
    ("btop", "Bee top"),
    ("fastfetch", ""),
    ("neofetch", "Neo fetch"),
    ("Btrfs", "Butter FS"),
    ("Btrfs", "Butter F S"),
    ("Btrfs", "ButterFS"),
    ("Alacritty", "Alacrity"),
    ("Alacritty", "Alacritie"),
    ("Ghostty", "Ghosty"),
    ("KDE", ""),
    ("Flatpak", ""),
];

/// The terms of Omarchy.
pub const OMARCHY: [(&'static str, &'static str); 18] = [
    ("Omarchy", "Omaki"),
    ("Omarchy", "Omarchi"),
    ("Omarchy", "Omarchie"),
    ("Omarchy", "Omarchic"),
    ("Omarchy", "Omachi"),
    ("Omarchy", "Omachy"),
    ("Omarchy", "Omarze"),
    ("Omarchy", "Omarky"),
    ("Omarchy", "Omarkey"),
    ("Omarchy", "O'Marchy"),
    ("Omarchy", "O Marchy"),
    ("Omarchy", "Amarty"),
    ("Omarchy", "Amachi"),
    ("Hyprland", "Hyperland"),
    ("Hyprland", "Hyper land"),
    ("Hyprland", "Hyperlands"),
    ("Waybar", "Way bar"),
    ("Quickshell", ""),
];

/// The entry on a row.
pub open spec fn row_entry(row: (&'static str, &'static str)) -> EntryView {
    EntryView {
        term: row.0@,
        heard: if row.1@.len() == 0 {
            Seq::empty()
        } else {
            seq![row.1@]
        },
    }
}

pub open spec fn row_entries(rows: Seq<(&'static str, &'static str)>) -> Seq<EntryView> {
    rows.map_values(|row: (&'static str, &'static str)| row_entry(row))
}

/// Puts the entries on `rows` into a vocabulary.
pub(crate) fn put_rows(entries: &mut Vec<Entry>, rows: &[(&'static str, &'static str)])
    ensures
        vocabulary::entry_views(final(entries)@) == vocabulary::with_all_more(
            vocabulary::entry_views(old(entries)@),
            row_entries(rows@),
        ),
{
    let ghost before = vocabulary::entry_views(entries@);
    let ghost list = row_entries(rows@);
    for i in 0..rows.len()
        invariant
            list == row_entries(rows@),
            vocabulary::entry_views(entries@) == vocabulary::with_all_more(
                before,
                list.take(i as int),
            ),
    {
        let (term, way) = rows[i];
        let mut heard: Vec<String> = Vec::new();
        if !way.is_empty() {
            heard.push(way.to_owned());
        }
        let entry = Entry { term: term.to_owned(), heard };
        proof {
            assert(entry@ =~= row_entry(rows@[i as int]));
            assert(list.take(i + 1).drop_last() =~= list.take(i as int));
            assert(list.take(i + 1).last() == entry@);
        }
        vocabulary::put_more(entries, entry);
    }
    proof {
        assert(list.take(list.len() as int) =~= list);
    }
}

/// Whether the first `n` characters of `v` are ASCII ones to print, with single spaces
/// between.
pub open spec fn plain_to(v: Seq<char>, n: int) -> bool
    decreases n,
{
    n <= 0 || (plain_to(v, n - 1) && ' ' <= v[n - 1] <= '~' && !(n > 1 && v[n - 1] == ' ' && v[n - 2]
        == ' '))
}

/// Whether `v` is words of ASCII characters with single spaces between.
pub open spec fn is_plain(v: Seq<char>) -> bool {
    v.len() > 0 && v[0] != ' ' && v.last() != ' ' && plain_to(v, v.len() as int)
}

/// A number for the first `n` characters of `v` in small letters.
pub open spec fn mark_to(v: Seq<char>, n: int) -> int
    decreases n,
{
    if n <= 0 {
        0
    } else {
        2 * mark_to(v, n - 1) + (text::lower(v[n - 1]) as int)
    }
}

/// A number that tells the ways of hearing one default term from those of another.
pub open spec fn mark(v: Seq<char>) -> int {
    mark_to(v, v.len() as int)
}

/// The default term whose ways of hearing have a number.
pub open spec fn owner(m: int) -> Seq<char> {
    if m == 3452 || m == 1674 || m == 43452 {
        "OSINT"@
    } else if m == 115445 || m == 459957 || m == 230517 || m == 231605 {
        "Wispr Flow"@
    } else if m == 6652 || m == 12812 || m == 12684 {
        "GitHub"@
    } else if m == 6628 || m == 12788 {
        "GitLab"@
    } else if m == 110741 || m == 1706465 || m == 438461 || m == 443361 || m == 221629 {
        "Kubernetes"@
    } else if m == 1682 || m == 3458 {
        "YAML"@
    } else if m == 3344 || m == 26412 || m == 26438 || m == 13234 {
        "Nginx"@
    } else if m == 28573 || m == 56061 || m == 57261 {
        "Postgres"@
    } else if m == 7105 || m == 450920 || m == 55144 || m == 225425 {
        "SQLite"@
    } else if m == 6847 || m == 3343 || m == 6807 {
        "Ollama"@
    } else if m == 55625 || m == 108937 || m == 55626 {
        "Tailscale"@
    } else if m == 106445 || m == 210701 {
        "Cloudflare"@
    } else if m == 7010 || m == 7074 {
        "Vercel"@
    } else if m == 6815 || m == 13095 {
        "Neovim"@
    } else if m == 13281 || m == 22881 || m == 7153 {
        "VS Code"@
    } else if m == 118104 || m == 231320 {
        "TypeScript"@
    } else if m == 107352 || m == 209816 {
        "JavaScript"@
    } else if m == 773 || m == 2637 {
        "npm"@
    } else if m == 717 {
        "API"@
    } else if m == 737 {
        "CPU"@
    } else if m == 753 {
        "GPU"@
    } else if m == 790 {
        "SSD"@
    } else if m == 794 {
        "SSH"@
    } else if m == 1671 || m == 10809 {
        "NVMe"@
    } else if m == 6955 {
        "NVIDIA"@
    } else if m == 757 || m == 2589 {
        "LLM"@
    } else if m == 3253 || m == 6297 {
        "macOS"@
    } else if m == 3362 || m == 3350 || m == 13693 {
        "Linux"@
    } else if m == 102562 || m == 102550 {
        "Arch Linux"@
    } else if m == 7037 || m == 7031 || m == 13949 || m == 14077 {
        "Ubuntu"@
    } else if m == 6324 {
        "Debian"@
    } else if m == 3417 || m == 6625 || m == 27065 {
        "NixOS"@
    } else if m == 14228 || m == 27396 {
        "Wayland"@
    } else if m == 27957 || m == 54725 {
        "PipeWire"@
    } else if m == 114921 || m == 227657 {
        "PulseAudio"@
    } else if m == 14722 || m == 29408 {
        "systemd"@
    } else if m == 1699 {
        "sudo"@
    } else if m == 6668 || m == 12956 {
        "pacman"@
    } else if m == 736 || m == 2454 || m == 5234 {
        "AUR"@
    } else if m == 1718 || m == 2902 || m == 13318 || m == 6894 {
        "tmux"@
    } else if m == 1582 || m == 2622 || m == 12174 {
        "btop"@
    } else if m == 52806 {
        "fastfetch"@
    } else if m == 27302 || m == 52422 {
        "neofetch"@
    } else if m == 3271 || m == 54175 || m == 108299 || m == 27183 {
        "Btrfs"@
    } else if m == 51513 || m == 25701 || m == 51471 {
        "Alacritty"@
    } else if m == 13433 || m == 6661 {
        "Ghostty"@
    } else if m == 729 {
        "KDE"@
    } else if m == 13213 {
        "Flatpak"@
    } else if m == 13781 || m == 3355 || m == 13765 || m == 27631 || m == 27629 || m == 6781 || m == 6797 || m == 6873 || m == 6863 || m == 13807 || m == 23381 || m == 22933 || m == 6433 || m == 6333 {
        "Omarchy"@
    } else if m == 28036 || m == 55908 || m == 110756 || m == 111931 {
        "Hyprland"@
    } else if m == 7028 || m == 13612 {
        "Waybar"@
    } else if m == 114408 {
        "Quickshell"@
    } else {
        Seq::empty()
    }
}

/// Whether `v` is a plain way of hearing a default term.
#[verifier::opaque]
pub open spec fn is_way(v: Seq<char>, term: Seq<char>) -> bool {
    is_plain(v) && owner(mark(v)) == term
}

proof fn lemma_tech_a()
    ensures
        is_way("OSINT"@, "OSINT"@),
        is_way("OSIT"@, "OSINT"@),
        is_way("O S I N T"@, "OSINT"@),
        is_way("Wispr Flow"@, "Wispr Flow"@),
        is_way("Whisper flow"@, "Wispr Flow"@),
        is_way("Whisperflow"@, "Wispr Flow"@),
        is_way("Wisper flow"@, "Wispr Flow"@),
        is_way("GitHub"@, "GitHub"@),
        is_way("Git hub"@, "GitHub"@),
        is_way("Get hub"@, "GitHub"@),
        is_way("Github"@, "GitHub"@),
        is_way("GitLab"@, "GitLab"@),
{
    reveal(is_way);
    reveal_with_fuel(mark_to, 16);
    reveal_with_fuel(plain_to, 16);
    reveal_strlit("OSINT");
    reveal_strlit("OSIT");
    reveal_strlit("O S I N T");
    reveal_strlit("Wispr Flow");
    reveal_strlit("Whisper flow");
    reveal_strlit("Whisperflow");
    reveal_strlit("Wisper flow");
    reveal_strlit("GitHub");
    reveal_strlit("Git hub");
    reveal_strlit("Get hub");
    reveal_strlit("Github");
    reveal_strlit("GitLab");
}

proof fn lemma_tech_b()
    ensures
        is_way("Git lab"@, "GitLab"@),
        is_way("Gitlab"@, "GitLab"@),
        is_way("Kubernetes"@, "Kubernetes"@),
        is_way("Cooper Netties"@, "Kubernetes"@),
        is_way("Kuber Nettes"@, "Kubernetes"@),
        is_way("Kubernetties"@, "Kubernetes"@),
        is_way("Kubernettes"@, "Kubernetes"@),
        is_way("YAML"@, "YAML"@),
        is_way("Yamel"@, "YAML"@),
        is_way("Nginx"@, "Nginx"@),
        is_way("Engine X"@, "Nginx"@),
        is_way("Engine-X"@, "Nginx"@),
{
    reveal(is_way);
    reveal_with_fuel(mark_to, 16);
    reveal_with_fuel(plain_to, 16);
    reveal_strlit("Git lab");
    reveal_strlit("Gitlab");
    reveal_strlit("Kubernetes");
    reveal_strlit("Cooper Netties");
    reveal_strlit("Kuber Nettes");
    reveal_strlit("Kubernetties");
    reveal_strlit("Kubernettes");
    reveal_strlit("YAML");
    reveal_strlit("Yamel");
    reveal_strlit("Nginx");
    reveal_strlit("Engine X");
    reveal_strlit("Engine-X");
}

proof fn lemma_tech_c()
    ensures
        is_way("EngineX"@, "Nginx"@),
        is_way("Postgres"@, "Postgres"@),
        is_way("Post Gres"@, "Postgres"@),
        is_way("Postgress"@, "Postgres"@),
        is_way("SQLite"@, "SQLite"@),
        is_way("Sequel light"@, "SQLite"@),
        is_way("SQL light"@, "SQLite"@),
        is_way("Sequel lite"@, "SQLite"@),
        is_way("Ollama"@, "Ollama"@),
        is_way("Olama"@, "Ollama"@),
        is_way("Olamma"@, "Ollama"@),
        is_way("Tailscale"@, "Tailscale"@),
{
    reveal(is_way);
    reveal_with_fuel(mark_to, 16);
    reveal_with_fuel(plain_to, 16);
    reveal_strlit("EngineX");
    reveal_strlit("Postgres");
    reveal_strlit("Post Gres");
    reveal_strlit("Postgress");
    reveal_strlit("SQLite");
    reveal_strlit("Sequel light");
    reveal_strlit("SQL light");
    reveal_strlit("Sequel lite");
    reveal_strlit("Ollama");
    reveal_strlit("Olama");
    reveal_strlit("Olamma");
    reveal_strlit("Tailscale");
}

proof fn lemma_tech_d()
    ensures
        is_way("Tail scale"@, "Tailscale"@),
        is_way("Tailscail"@, "Tailscale"@),
        is_way("Cloudflare"@, "Cloudflare"@),
        is_way("Cloud flare"@, "Cloudflare"@),
        is_way("Vercel"@, "Vercel"@),
        is_way("Versel"@, "Vercel"@),
        is_way("Neovim"@, "Neovim"@),
        is_way("Neo vim"@, "Neovim"@),
        is_way("NeoVim"@, "Neovim"@),
        is_way("VS Code"@, "VS Code"@),
        is_way("V S Code"@, "VS Code"@),
        is_way("VSCode"@, "VS Code"@),
{
    reveal(is_way);
    reveal_with_fuel(mark_to, 16);
    reveal_with_fuel(plain_to, 16);
    reveal_strlit("Tail scale");
    reveal_strlit("Tailscail");
    reveal_strlit("Cloudflare");
    reveal_strlit("Cloud flare");
    reveal_strlit("Vercel");
    reveal_strlit("Versel");
    reveal_strlit("Neovim");
    reveal_strlit("Neo vim");
    reveal_strlit("NeoVim");
    reveal_strlit("VS Code");
    reveal_strlit("V S Code");
    reveal_strlit("VSCode");
}

proof fn lemma_tech_e()
    ensures
        is_way("VS code"@, "VS Code"@),
        is_way("TypeScript"@, "TypeScript"@),
        is_way("Type script"@, "TypeScript"@),
        is_way("Typescript"@, "TypeScript"@),
        is_way("JavaScript"@, "JavaScript"@),
        is_way("Java script"@, "JavaScript"@),
        is_way("Javascript"@, "JavaScript"@),
        is_way("npm"@, "npm"@),
        is_way("N P M"@, "npm"@),
        is_way("API"@, "API"@),
        is_way("CPU"@, "CPU"@),
        is_way("GPU"@, "GPU"@),
{
    reveal(is_way);
    reveal_with_fuel(mark_to, 16);
    reveal_with_fuel(plain_to, 16);
    reveal_strlit("VS code");
    reveal_strlit("TypeScript");
    reveal_strlit("Type script");
    reveal_strlit("Typescript");
    reveal_strlit("JavaScript");
    reveal_strlit("Java script");
    reveal_strlit("Javascript");
    reveal_strlit("npm");
    reveal_strlit("N P M");
    reveal_strlit("API");
    reveal_strlit("CPU");
    reveal_strlit("GPU");
}

proof fn lemma_tech_f()
    ensures
        is_way("SSD"@, "SSD"@),
        is_way("SSH"@, "SSH"@),
        is_way("NVMe"@, "NVMe"@),
        is_way("N V M E"@, "NVMe"@),
        is_way("NVME"@, "NVMe"@),
        is_way("NVIDIA"@, "NVIDIA"@),
        is_way("LLM"@, "LLM"@),
        is_way("L L M"@, "LLM"@),
        is_way("macOS"@, "macOS"@),
        is_way("Mac OS"@, "macOS"@),
        is_way("MacOS"@, "macOS"@),
{
    reveal(is_way);
    reveal_with_fuel(mark_to, 16);
    reveal_with_fuel(plain_to, 16);
    reveal_strlit("SSD");
    reveal_strlit("SSH");
    reveal_strlit("NVMe");
    reveal_strlit("N V M E");
    reveal_strlit("NVME");
    reveal_strlit("NVIDIA");
    reveal_strlit("LLM");
    reveal_strlit("L L M");
    reveal_strlit("macOS");
    reveal_strlit("Mac OS");
    reveal_strlit("MacOS");
}

proof fn lemma_linux_a()
    ensures
        is_way("Linux"@, "Linux"@),
        is_way("Linox"@, "Linux"@),
        is_way("Linucks"@, "Linux"@),
        is_way("Arch Linux"@, "Arch Linux"@),
        is_way("Arch Linox"@, "Arch Linux"@),
        is_way("Ubuntu"@, "Ubuntu"@),
        is_way("Ubunto"@, "Ubuntu"@),
        is_way("Oobuntu"@, "Ubuntu"@),
        is_way("Uboontu"@, "Ubuntu"@),
        is_way("Debian"@, "Debian"@),
        is_way("NixOS"@, "NixOS"@),
        is_way("Nix OS"@, "NixOS"@),
{
    reveal(is_way);
    reveal_with_fuel(mark_to, 16);
    reveal_with_fuel(plain_to, 16);
    reveal_strlit("Linux");
    reveal_strlit("Linox");
    reveal_strlit("Linucks");
    reveal_strlit("Arch Linux");
    reveal_strlit("Arch Linox");
    reveal_strlit("Ubuntu");
    reveal_strlit("Ubunto");
    reveal_strlit("Oobuntu");
    reveal_strlit("Uboontu");
    reveal_strlit("Debian");
    reveal_strlit("NixOS");
    reveal_strlit("Nix OS");
}

proof fn lemma_linux_b()
    ensures
        is_way("Nicks OS"@, "NixOS"@),
        is_way("Wayland"@, "Wayland"@),
        is_way("Way land"@, "Wayland"@),
        is_way("PipeWire"@, "PipeWire"@),
        is_way("Pipe wire"@, "PipeWire"@),
        is_way("Pipewire"@, "PipeWire"@),
        is_way("PulseAudio"@, "PulseAudio"@),
        is_way("Pulse audio"@, "PulseAudio"@),
        is_way("systemd"@, "systemd"@),
        is_way("System D"@, "systemd"@),
        is_way("SystemD"@, "systemd"@),
        is_way("sudo"@, "sudo"@),
{
    reveal(is_way);
    reveal_with_fuel(mark_to, 16);
    reveal_with_fuel(plain_to, 16);
    reveal_strlit("Nicks OS");
    reveal_strlit("Wayland");
    reveal_strlit("Way land");
    reveal_strlit("PipeWire");
    reveal_strlit("Pipe wire");
    reveal_strlit("Pipewire");
    reveal_strlit("PulseAudio");
    reveal_strlit("Pulse audio");
    reveal_strlit("systemd");
    reveal_strlit("System D");
    reveal_strlit("SystemD");
    reveal_strlit("sudo");
}

proof fn lemma_linux_c()
    ensures
        is_way("pacman"@, "pacman"@),
        is_way("Pac-Man"@, "pacman"@),
        is_way("Pacman"@, "pacman"@),
        is_way("AUR"@, "AUR"@),
        is_way("A U R"@, "AUR"@),
        is_way("A.U.R."@, "AUR"@),
        is_way("tmux"@, "tmux"@),
        is_way("T mux"@, "tmux"@),
        is_way("Tee mux"@, "tmux"@),
        is_way("Teamux"@, "tmux"@),
        is_way("btop"@, "btop"@),
        is_way("B top"@, "btop"@),
{
    reveal(is_way);
    reveal_with_fuel(mark_to, 16);
    reveal_with_fuel(plain_to, 16);
    reveal_strlit("pacman");
    reveal_strlit("Pac-Man");
    reveal_strlit("Pacman");
    reveal_strlit("AUR");
    reveal_strlit("A U R");
    reveal_strlit("A.U.R.");
    reveal_strlit("tmux");
    reveal_strlit("T mux");
    reveal_strlit("Tee mux");
    reveal_strlit("Teamux");
    reveal_strlit("btop");
    reveal_strlit("B top");
}

proof fn lemma_linux_d()
    ensures
        is_way("Bee top"@, "btop"@),
        is_way("fastfetch"@, "fastfetch"@),
        is_way("neofetch"@, "neofetch"@),
        is_way("Neo fetch"@, "neofetch"@),
        is_way("Btrfs"@, "Btrfs"@),
        is_way("Butter FS"@, "Btrfs"@),
        is_way("Butter F S"@, "Btrfs"@),
        is_way("ButterFS"@, "Btrfs"@),
        is_way("Alacritty"@, "Alacritty"@),
        is_way("Alacrity"@, "Alacritty"@),
        is_way("Alacritie"@, "Alacritty"@),
        is_way("Ghostty"@, "Ghostty"@),
{
    reveal(is_way);
    reveal_with_fuel(mark_to, 16);
    reveal_with_fuel(plain_to, 16);
    reveal_strlit("Bee top");
    reveal_strlit("fastfetch");
    reveal_strlit("neofetch");
    reveal_strlit("Neo fetch");
    reveal_strlit("Btrfs");
    reveal_strlit("Butter FS");
    reveal_strlit("Butter F S");
    reveal_strlit("ButterFS");
    reveal_strlit("Alacritty");
    reveal_strlit("Alacrity");
    reveal_strlit("Alacritie");
    reveal_strlit("Ghostty");
}

proof fn lemma_linux_e()
    ensures
        is_way("Ghosty"@, "Ghostty"@),
        is_way("KDE"@, "KDE"@),
        is_way("Flatpak"@, "Flatpak"@),
{
    reveal(is_way);
    reveal_with_fuel(mark_to, 16);
    reveal_with_fuel(plain_to, 16);
    reveal_strlit("Ghosty");
    reveal_strlit("KDE");
    reveal_strlit("Flatpak");
}

proof fn lemma_omarchy_a()
    ensures
        is_way("Omarchy"@, "Omarchy"@),
        is_way("Omaki"@, "Omarchy"@),
        is_way("Omarchi"@, "Omarchy"@),
        is_way("Omarchie"@, "Omarchy"@),
        is_way("Omarchic"@, "Omarchy"@),
        is_way("Omachi"@, "Omarchy"@),
        is_way("Omachy"@, "Omarchy"@),
        is_way("Omarze"@, "Omarchy"@),
        is_way("Omarky"@, "Omarchy"@),
        is_way("Omarkey"@, "Omarchy"@),
        is_way("O'Marchy"@, "Omarchy"@),
        is_way("O Marchy"@, "Omarchy"@),
{
    reveal(is_way);
    reveal_with_fuel(mark_to, 16);
    reveal_with_fuel(plain_to, 16);
    reveal_strlit("Omarchy");
    reveal_strlit("Omaki");
    reveal_strlit("Omarchi");
    reveal_strlit("Omarchie");
    reveal_strlit("Omarchic");
    reveal_strlit("Omachi");
    reveal_strlit("Omachy");
    reveal_strlit("Omarze");
    reveal_strlit("Omarky");
    reveal_strlit("Omarkey");
    reveal_strlit("O'Marchy");
    reveal_strlit("O Marchy");
}

proof fn lemma_omarchy_b()
    ensures
        is_way("Amarty"@, "Omarchy"@),
        is_way("Amachi"@, "Omarchy"@),
        is_way("Hyprland"@, "Hyprland"@),
        is_way("Hyperland"@, "Hyprland"@),
        is_way("Hyper land"@, "Hyprland"@),
        is_way("Hyperlands"@, "Hyprland"@),
        is_way("Waybar"@, "Waybar"@),
        is_way("Way bar"@, "Waybar"@),
        is_way("Quickshell"@, "Quickshell"@),
{
    reveal(is_way);
    reveal_with_fuel(mark_to, 16);
    reveal_with_fuel(plain_to, 16);
    reveal_strlit("Amarty");
    reveal_strlit("Amachi");
    reveal_strlit("Hyprland");
    reveal_strlit("Hyperland");
    reveal_strlit("Hyper land");
    reveal_strlit("Hyperlands");
    reveal_strlit("Waybar");
    reveal_strlit("Way bar");
    reveal_strlit("Quickshell");
}

/// Whether the first `n` of `rows` tell of plain ways of hearing default terms.
pub open spec fn rows_hold(rows: Seq<(&'static str, &'static str)>, n: int) -> bool
    decreases n,
{
    n <= 0 || (rows_hold(rows, n - 1) && is_way(rows[n - 1].0@, rows[n - 1].0@) && (rows[n
        - 1].1@.len() == 0 || is_way(rows[n - 1].1@, rows[n - 1].0@)))
}

proof fn lemma_tech()
    ensures
        rows_hold(TECH@, TECH@.len() as int),
{
    lemma_tech_a();
    lemma_tech_b();
    lemma_tech_c();
    lemma_tech_d();
    lemma_tech_e();
    lemma_tech_f();
    reveal_strlit("");
    reveal_with_fuel(rows_hold, 53);
}

proof fn lemma_linux()
    ensures
        rows_hold(LINUX@, LINUX@.len() as int),
{
    lemma_linux_a();
    lemma_linux_b();
    lemma_linux_c();
    lemma_linux_d();
    lemma_linux_e();
    reveal_strlit("");
    reveal_with_fuel(rows_hold, 37);
}

proof fn lemma_omarchy()
    ensures
        rows_hold(OMARCHY@, OMARCHY@.len() as int),
{
    lemma_omarchy_a();
    lemma_omarchy_b();
    reveal_strlit("");
    reveal_with_fuel(rows_hold, 20);
}

/// A term, as the first of its ways, and the other ways it is heard.
pub open spec fn ways(entry: EntryView) -> Seq<Seq<char>> {
    seq![entry.term] + entry.heard
}

/// Whether no term comes twice in a vocabulary, and all its ways of hearing are plain
/// ones of default terms.
spec fn is_told_apart(entries: Seq<EntryView>) -> bool {
    &&& forall|i: int, j: int|
        0 <= i < j < entries.len() ==> (#[trigger] entries[i]).term != (#[trigger] entries[j]).term
    &&& forall|i: int, k: int|
        0 <= i < entries.len() && 0 <= k < ways(entries[i]).len() ==> is_way(
            #[trigger] ways(entries[i])[k],
            entries[i].term,
        )
}

proof fn lemma_rows_hold(rows: Seq<(&'static str, &'static str)>, n: int, i: int)
    requires
        rows_hold(rows, n),
        0 <= i < n,
    ensures
        is_way(rows[i].0@, rows[i].0@),
        rows[i].1@.len() > 0 ==> is_way(rows[i].1@, rows[i].0@),
    decreases n,
{
    if i < n - 1 {
        lemma_rows_hold(rows, n - 1, i);
    }
}

proof fn lemma_told_apart(entries: Seq<EntryView>, rows: Seq<(&'static str, &'static str)>, n: int)
    requires
        is_told_apart(entries),
        rows_hold(rows, rows.len() as int),
        0 <= n <= rows.len(),
    ensures
        is_told_apart(vocabulary::with_all_more(entries, row_entries(rows).take(n))),
    decreases n,
{
    let list = row_entries(rows).take(n);
    if n > 0 {
        let row = row_entry(rows[n - 1]);
        lemma_told_apart(entries, rows, n - 1);
        lemma_rows_hold(rows, rows.len() as int, n - 1);
        assert(list.drop_last() =~= row_entries(rows).take(n - 1));
        assert(list.last() == row);
        let before = vocabulary::with_all_more(entries, list.drop_last());
        let after = vocabulary::with_all_more(entries, list);
        let place = vocabulary::term_place(before, row.term);
        text::lemma_first_where(before, vocabulary::has_term(row.term));
        assert forall|i: int, j: int| 0 <= i < j < after.len() implies (#[trigger] after[i]).term
            != (#[trigger] after[j]).term by {
            if place < before.len() {
                assert(vocabulary::has_term(row.term)(before[place]));
                assert(before[i].term != before[j].term);
            } else if j < before.len() {
                assert(before[i].term != before[j].term);
            } else {
                assert(!vocabulary::has_term(row.term)(before[i]));
            }
        }
        assert forall|i: int, k: int|
            0 <= i < after.len() && 0 <= k < ways(after[i]).len() implies is_way(
            #[trigger] ways(after[i])[k],
            after[i].term,
        ) by {
            if i < before.len() && i != place {
                assert(is_way(ways(before[i])[k], before[i].term));
            } else if place < before.len() {
                assert(vocabulary::has_term(row.term)(before[place]));
                let size = ways(before[i]).len() as int;
                if k < size {
                    assert(ways(after[i])[k] == ways(before[i])[k]);
                    assert(is_way(ways(before[i])[k], before[i].term));
                } else {
                    assert(ways(after[i])[k] == row.heard[k - size]);
                }
            } else if k > 0 {
                assert(ways(after[i])[k] == row.heard[k - 1]);
            }
        }
    }
}

proof fn lemma_defaults()
    ensures
        is_told_apart(vocabulary::default_entries()),
{
    let none = Seq::<EntryView>::empty();
    let tech = row_entries(TECH@);
    let linux = row_entries(LINUX@);
    let omarchy = row_entries(OMARCHY@);
    lemma_tech();
    lemma_linux();
    lemma_omarchy();
    assert(tech.take(TECH@.len() as int) =~= tech);
    assert(linux.take(LINUX@.len() as int) =~= linux);
    assert(omarchy.take(OMARCHY@.len() as int) =~= omarchy);
    lemma_told_apart(none, TECH@, TECH@.len() as int);
    let first = vocabulary::with_all_more(none, tech);
    lemma_told_apart(first, LINUX@, LINUX@.len() as int);
    lemma_told_apart(vocabulary::with_all_more(first, linux), OMARCHY@, OMARCHY@.len() as int);
}

proof fn lemma_plain_to(v: Seq<char>, n: int, i: int)
    requires
        plain_to(v, n),
        0 <= i < n,
    ensures
        ' ' <= v[i] <= '~',
        i > 0 && v[i] == ' ' ==> v[i - 1] != ' ',
    decreases n,
{
    if i < n - 1 {
        lemma_plain_to(v, n - 1, i);
    }
}

/// Words with single spaces between stay as they are.
proof fn lemma_spaced(v: Seq<char>)
    requires
        v.len() > 0,
        v[0] != ' ',
        v.last() != ' ',
        forall|i: int| 0 <= i < v.len() ==> ' ' <= #[trigger] v[i] <= '~',
        forall|i: int| 0 < i < v.len() && v[i] == ' ' ==> #[trigger] v[i - 1] != ' ',
    ensures
        vocabulary::spaced(v) == v,
        text::words(v).len() > 0,
    decreases v.len(),
{
    let n = text::first_where(v, text::space());
    text::lemma_first_where(v, text::space());
    assert(!text::space()(v[0]));
    if n == v.len() {
        assert(v.take(n) =~= v);
        assert(text::words(v.skip(n)) =~= Seq::<Seq<char>>::empty());
        assert(text::words(v) =~= seq![v]);
    } else {
        assert(text::space()(v[n]));
        assert(v[n] == ' ');
        let rest = v.skip(n + 1);
        assert(v.skip(n).drop_first() =~= rest);
        assert(rest.last() == v.last());
        assert(v[n + 1] != ' ') by {
            if v[n + 1] == ' ' {
                assert(v[(n + 1) - 1] != ' ');
            }
        }
        assert forall|i: int| 0 <= i < rest.len() implies ' ' <= #[trigger] rest[i] <= '~' by {
            assert(rest[i] == v[n + 1 + i]);
        }
        assert forall|i: int| 0 < i < rest.len() && rest[i] == ' ' implies #[trigger] rest[i - 1]
            != ' ' by {
            assert(rest[i] == v[n + 1 + i]);
            assert(rest[i - 1] == v[(n + 1 + i) - 1]);
        }
        lemma_spaced(rest);
        assert(v.skip(n)[0] == v[n]);
        assert(text::words(v.skip(n)) == text::words(rest));
        assert(text::words(v) == seq![v.take(n)] + text::words(rest));
        text::lemma_joined_first(v.take(n), text::words(rest), " "@);
        reveal_strlit(" ");
        assert(v.take(n) + " "@ + rest =~= v);
    }
}

/// A plain way of hearing is its own words.
proof fn lemma_plain(v: Seq<char>)
    requires
        is_plain(v),
    ensures
        vocabulary::spaced(text::trimmed(v)) == v,
        vstd::utf8::is_ascii_chars(v),
{
    assert forall|i: int| 0 <= i < v.len() implies ' ' <= #[trigger] v[i] <= '~' && (i > 0 && v[i]
        == ' ' ==> v[i - 1] != ' ') by {
        lemma_plain_to(v, v.len() as int, i);
    }
    assert(text::trimmed_start(v) == v);
    assert(text::trimmed_end(v) == v);
    assert forall|i: int| 0 < i < v.len() && v[i] == ' ' implies #[trigger] v[i - 1] != ' ' by {
        assert(' ' <= v[i]);
    }
    lemma_spaced(v);
}

proof fn lemma_mark(v: Seq<char>, w: Seq<char>, n: int)
    requires
        text::lowered(v) == text::lowered(w),
        n <= v.len(),
    ensures
        mark_to(v, n) == mark_to(w, n),
    decreases n,
{
    if n > 0 {
        lemma_mark(v, w, n - 1);
        assert(text::lowered(v).len() == v.len() && text::lowered(w).len() == w.len());
        assert(text::lowered(v)[n - 1] == text::lower(v[n - 1]));
        assert(text::lowered(w)[n - 1] == text::lower(w[n - 1]));
    }
}

/// What a way of hearing is found by, where it has ASCII letters alone.
pub open spec fn small_key(way: Seq<char>) -> Seq<char> {
    text::lowered(vocabulary::spaced(text::trimmed(way)))
}

/// No way of hearing a default term, nor a term itself, is that of another: where two
/// are the same in small letters and with single spaces, they are of one term.
pub proof fn no_way_of_hearing_is_shared(i: int, j: int, v: Seq<char>, w: Seq<char>)
    requires
        0 <= i < vocabulary::default_entries().len(),
        0 <= j < vocabulary::default_entries().len(),
        ways(vocabulary::default_entries()[i]).contains(v),
        ways(vocabulary::default_entries()[j]).contains(w),
        small_key(v) == small_key(w),
    ensures
        i == j,
{
    let entries = vocabulary::default_entries();
    lemma_defaults();
    reveal(is_way);
    let k = choose|k: int| 0 <= k < ways(entries[i]).len() && ways(entries[i])[k] == v;
    let l = choose|l: int| 0 <= l < ways(entries[j]).len() && ways(entries[j])[l] == w;
    assert(is_way(ways(entries[i])[k], entries[i].term));
    assert(is_way(ways(entries[j])[l], entries[j].term));
    lemma_plain(v);
    lemma_plain(w);
    assert(text::lowered(v).len() == text::lowered(w).len());
    lemma_mark(v, w, v.len() as int);
    if i < j {
        assert(entries[i].term != entries[j].term);
    } else if j < i {
        assert(entries[j].term != entries[i].term);
    }
}

/// Whether the lower case of every plain way of hearing in a vocabulary makes its ASCII
/// capitals small.
pub open spec fn keys_are_small(entries: Seq<EntryView>) -> bool {
    forall|i: int, k: int|
        0 <= i < entries.len() && 0 <= k < ways(entries[i]).len() && vstd::utf8::is_ascii_chars(
            vocabulary::spaced(text::trimmed(#[trigger] ways(entries[i])[k])),
        ) ==> vocabulary::heard_key(ways(entries[i])[k]) == small_key(ways(entries[i])[k])
}

/// Whether every way of hearing a default term, and the term itself, is rewritten to
/// that term.
pub open spec fn knows_defaults(list: Seq<ReplacementView>) -> bool {
    forall|i: int, k: int|
        0 <= i < vocabulary::default_entries().len() && 0 <= k < ways(
            vocabulary::default_entries()[i],
        ).len() ==> vocabulary::term_of(
            list,
            small_key(#[trigger] ways(vocabulary::default_entries()[i])[k]),
        ) == Some(vocabulary::default_entries()[i].term)
}

/// The replacements of the default terms rewrite every way of hearing one to it, and
/// leave the spelling of each as it is.
pub proof fn the_defaults_are_known()
    requires
        keys_are_small(vocabulary::default_entries()),
    ensures
        knows_defaults(vocabulary::entry_replacements(vocabulary::default_entries())),
{
    let entries = vocabulary::default_entries();
    lemma_defaults();
    assert forall|i: int, k: int|
        0 <= i < entries.len() && 0 <= k < ways(entries[i]).len() implies vocabulary::term_of(
        vocabulary::entry_replacements(entries),
        small_key(#[trigger] ways(entries[i])[k]),
    ) == Some(entries[i].term) by {
        reveal(is_way);
        let way = ways(entries[i])[k];
        let key = small_key(way);
        assert(is_way(way, entries[i].term));
        lemma_plain(way);
        assert(vocabulary::heard_key(way) == key);
        assert(vocabulary::hears(entries[i], key));
        assert forall|j: int| 0 <= j < entries.len() && j != i implies !vocabulary::hears(
            #[trigger] entries[j],
            key,
        ) by {
            if vocabulary::hears(entries[j], key) {
                let l = choose|l: int|
                    0 <= l < ways(entries[j]).len() && vocabulary::heard_key(
                        #[trigger] ways(entries[j])[l],
                    ) == key;
                let other = ways(entries[j])[l];
                assert(is_way(other, entries[j].term));
                lemma_plain(other);
                assert(vocabulary::heard_key(other) == small_key(other));
                no_way_of_hearing_is_shared(i, j, way, other);
            }
        }
        assert(text::lowered(way).len() == way.len());
        vocabulary::a_term_heard_alone_is_meant(entries, i, key);
    }
}

/// The terms of technology at large, and how each of them is heard.
pub proof fn the_terms_of_technology_are_heard_so()
    ensures
        row_entries(TECH@) == seq![
            EntryView { term: "OSINT"@, heard: seq!["OSIT"@] },
            EntryView { term: "OSINT"@, heard: seq!["O S I N T"@] },
            EntryView { term: "Wispr Flow"@, heard: seq!["Whisper flow"@] },
            EntryView { term: "Wispr Flow"@, heard: seq!["Whisperflow"@] },
            EntryView { term: "Wispr Flow"@, heard: seq!["Wisper flow"@] },
            EntryView { term: "GitHub"@, heard: seq!["Git hub"@] },
            EntryView { term: "GitHub"@, heard: seq!["Get hub"@] },
            EntryView { term: "GitHub"@, heard: seq!["Github"@] },
            EntryView { term: "GitLab"@, heard: seq!["Git lab"@] },
            EntryView { term: "GitLab"@, heard: seq!["Gitlab"@] },
            EntryView { term: "Kubernetes"@, heard: seq!["Cooper Netties"@] },
            EntryView { term: "Kubernetes"@, heard: seq!["Kuber Nettes"@] },
            EntryView { term: "Kubernetes"@, heard: seq!["Kubernetties"@] },
            EntryView { term: "Kubernetes"@, heard: seq!["Kubernettes"@] },
            EntryView { term: "YAML"@, heard: seq!["Yamel"@] },
            EntryView { term: "Nginx"@, heard: seq!["Engine X"@] },
            EntryView { term: "Nginx"@, heard: seq!["Engine-X"@] },
            EntryView { term: "Nginx"@, heard: seq!["EngineX"@] },
            EntryView { term: "Postgres"@, heard: seq!["Post Gres"@] },
            EntryView { term: "Postgres"@, heard: seq!["Postgress"@] },
            EntryView { term: "SQLite"@, heard: seq!["Sequel light"@] },
            EntryView { term: "SQLite"@, heard: seq!["SQL light"@] },
            EntryView { term: "SQLite"@, heard: seq!["Sequel lite"@] },
            EntryView { term: "Ollama"@, heard: seq!["Olama"@] },
            EntryView { term: "Ollama"@, heard: seq!["Olamma"@] },
            EntryView { term: "Tailscale"@, heard: seq!["Tail scale"@] },
            EntryView { term: "Tailscale"@, heard: seq!["Tailscail"@] },
            EntryView { term: "Cloudflare"@, heard: seq!["Cloud flare"@] },
            EntryView { term: "Vercel"@, heard: seq!["Versel"@] },
            EntryView { term: "Neovim"@, heard: seq!["Neo vim"@] },
            EntryView { term: "Neovim"@, heard: seq!["Neovim"@] },
            EntryView { term: "Neovim"@, heard: seq!["NeoVim"@] },
            EntryView { term: "VS Code"@, heard: seq!["V S Code"@] },
            EntryView { term: "VS Code"@, heard: seq!["VSCode"@] },
            EntryView { term: "VS Code"@, heard: seq!["VS code"@] },
            EntryView { term: "TypeScript"@, heard: seq!["Type script"@] },
            EntryView { term: "TypeScript"@, heard: seq!["Typescript"@] },
            EntryView { term: "JavaScript"@, heard: seq!["Java script"@] },
            EntryView { term: "JavaScript"@, heard: seq!["Javascript"@] },
            EntryView { term: "npm"@, heard: seq!["N P M"@] },
            EntryView { term: "API"@, heard: Seq::empty() },
            EntryView { term: "CPU"@, heard: Seq::empty() },
            EntryView { term: "GPU"@, heard: Seq::empty() },
            EntryView { term: "SSD"@, heard: Seq::empty() },
            EntryView { term: "SSH"@, heard: Seq::empty() },
            EntryView { term: "NVMe"@, heard: seq!["N V M E"@] },
            EntryView { term: "NVMe"@, heard: seq!["NVME"@] },
            EntryView { term: "NVIDIA"@, heard: Seq::empty() },
            EntryView { term: "LLM"@, heard: seq!["L L M"@] },
            EntryView { term: "macOS"@, heard: seq!["Mac OS"@] },
            EntryView { term: "macOS"@, heard: seq!["MacOS"@] },
        ],
{
    reveal_strlit("");
    reveal_strlit("Cloud flare");
    reveal_strlit("Cooper Netties");
    reveal_strlit("Engine X");
    reveal_strlit("Engine-X");
    reveal_strlit("EngineX");
    reveal_strlit("Get hub");
    reveal_strlit("Git hub");
    reveal_strlit("Git lab");
    reveal_strlit("Github");
    reveal_strlit("Gitlab");
    reveal_strlit("Java script");
    reveal_strlit("Javascript");
    reveal_strlit("Kuber Nettes");
    reveal_strlit("Kubernettes");
    reveal_strlit("Kubernetties");
    reveal_strlit("L L M");
    reveal_strlit("Mac OS");
    reveal_strlit("MacOS");
    reveal_strlit("N P M");
    reveal_strlit("N V M E");
    reveal_strlit("NVME");
    reveal_strlit("Neo vim");
    reveal_strlit("NeoVim");
    reveal_strlit("Neovim");
    reveal_strlit("O S I N T");
    reveal_strlit("OSIT");
    reveal_strlit("Olama");
    reveal_strlit("Olamma");
    reveal_strlit("Post Gres");
    reveal_strlit("Postgress");
    reveal_strlit("SQL light");
    reveal_strlit("Sequel light");
    reveal_strlit("Sequel lite");
    reveal_strlit("Tail scale");
    reveal_strlit("Tailscail");
    reveal_strlit("Type script");
    reveal_strlit("Typescript");
    reveal_strlit("V S Code");
    reveal_strlit("VS code");
    reveal_strlit("VSCode");
    reveal_strlit("Versel");
    reveal_strlit("Whisper flow");
    reveal_strlit("Whisperflow");
    reveal_strlit("Wisper flow");
    reveal_strlit("Yamel");
}

/// The terms of Linux, and how each of them is heard.
pub proof fn the_terms_of_linux_are_heard_so()
    ensures
        row_entries(LINUX@) == seq![
            EntryView { term: "Linux"@, heard: seq!["Linox"@] },
            EntryView { term: "Linux"@, heard: seq!["Linucks"@] },
            EntryView { term: "Arch Linux"@, heard: seq!["Arch Linox"@] },
            EntryView { term: "Ubuntu"@, heard: seq!["Ubunto"@] },
            EntryView { term: "Ubuntu"@, heard: seq!["Oobuntu"@] },
            EntryView { term: "Ubuntu"@, heard: seq!["Uboontu"@] },
            EntryView { term: "Debian"@, heard: Seq::empty() },
            EntryView { term: "NixOS"@, heard: seq!["Nix OS"@] },
            EntryView { term: "NixOS"@, heard: seq!["Nicks OS"@] },
            EntryView { term: "Wayland"@, heard: seq!["Way land"@] },
            EntryView { term: "PipeWire"@, heard: seq!["Pipe wire"@] },
            EntryView { term: "PipeWire"@, heard: seq!["Pipewire"@] },
            EntryView { term: "PulseAudio"@, heard: seq!["Pulse audio"@] },
            EntryView { term: "systemd"@, heard: seq!["System D"@] },
            EntryView { term: "systemd"@, heard: seq!["SystemD"@] },
            EntryView { term: "sudo"@, heard: Seq::empty() },
            EntryView { term: "pacman"@, heard: seq!["Pac-Man"@] },
            EntryView { term: "pacman"@, heard: seq!["Pacman"@] },
            EntryView { term: "AUR"@, heard: seq!["A U R"@] },
            EntryView { term: "AUR"@, heard: seq!["A.U.R."@] },
            EntryView { term: "tmux"@, heard: seq!["T mux"@] },
            EntryView { term: "tmux"@, heard: seq!["Tee mux"@] },
            EntryView { term: "tmux"@, heard: seq!["Teamux"@] },
            EntryView { term: "btop"@, heard: seq!["B top"@] },
            EntryView { term: "btop"@, heard: seq!["Bee top"@] },
            EntryView { term: "fastfetch"@, heard: Seq::empty() },
            EntryView { term: "neofetch"@, heard: seq!["Neo fetch"@] },
            EntryView { term: "Btrfs"@, heard: seq!["Butter FS"@] },
            EntryView { term: "Btrfs"@, heard: seq!["Butter F S"@] },
            EntryView { term: "Btrfs"@, heard: seq!["ButterFS"@] },
            EntryView { term: "Alacritty"@, heard: seq!["Alacrity"@] },
            EntryView { term: "Alacritty"@, heard: seq!["Alacritie"@] },
            EntryView { term: "Ghostty"@, heard: seq!["Ghosty"@] },
            EntryView { term: "KDE"@, heard: Seq::empty() },
            EntryView { term: "Flatpak"@, heard: Seq::empty() },
        ],
{
    reveal_strlit("");
    reveal_strlit("A U R");
    reveal_strlit("A.U.R.");
    reveal_strlit("Alacritie");
    reveal_strlit("Alacrity");
    reveal_strlit("Arch Linox");
    reveal_strlit("B top");
    reveal_strlit("Bee top");
    reveal_strlit("Butter F S");
    reveal_strlit("Butter FS");
    reveal_strlit("ButterFS");
    reveal_strlit("Ghosty");
    reveal_strlit("Linox");
    reveal_strlit("Linucks");
    reveal_strlit("Neo fetch");
    reveal_strlit("Nicks OS");
    reveal_strlit("Nix OS");
    reveal_strlit("Oobuntu");
    reveal_strlit("Pac-Man");
    reveal_strlit("Pacman");
    reveal_strlit("Pipe wire");
    reveal_strlit("Pipewire");
    reveal_strlit("Pulse audio");
    reveal_strlit("System D");
    reveal_strlit("SystemD");
    reveal_strlit("T mux");
    reveal_strlit("Teamux");
    reveal_strlit("Tee mux");
    reveal_strlit("Uboontu");
    reveal_strlit("Ubunto");
    reveal_strlit("Way land");
}

/// The terms of Omarchy, and how each of them is heard.
pub proof fn the_terms_of_omarchy_are_heard_so()
    ensures
        row_entries(OMARCHY@) == seq![
            EntryView { term: "Omarchy"@, heard: seq!["Omaki"@] },
            EntryView { term: "Omarchy"@, heard: seq!["Omarchi"@] },
            EntryView { term: "Omarchy"@, heard: seq!["Omarchie"@] },
            EntryView { term: "Omarchy"@, heard: seq!["Omarchic"@] },
            EntryView { term: "Omarchy"@, heard: seq!["Omachi"@] },
            EntryView { term: "Omarchy"@, heard: seq!["Omachy"@] },
            EntryView { term: "Omarchy"@, heard: seq!["Omarze"@] },
            EntryView { term: "Omarchy"@, heard: seq!["Omarky"@] },
            EntryView { term: "Omarchy"@, heard: seq!["Omarkey"@] },
            EntryView { term: "Omarchy"@, heard: seq!["O'Marchy"@] },
            EntryView { term: "Omarchy"@, heard: seq!["O Marchy"@] },
            EntryView { term: "Omarchy"@, heard: seq!["Amarty"@] },
            EntryView { term: "Omarchy"@, heard: seq!["Amachi"@] },
            EntryView { term: "Hyprland"@, heard: seq!["Hyperland"@] },
            EntryView { term: "Hyprland"@, heard: seq!["Hyper land"@] },
            EntryView { term: "Hyprland"@, heard: seq!["Hyperlands"@] },
            EntryView { term: "Waybar"@, heard: seq!["Way bar"@] },
            EntryView { term: "Quickshell"@, heard: Seq::empty() },
        ],
{
    reveal_strlit("");
    reveal_strlit("Amachi");
    reveal_strlit("Amarty");
    reveal_strlit("Hyper land");
    reveal_strlit("Hyperland");
    reveal_strlit("Hyperlands");
    reveal_strlit("O Marchy");
    reveal_strlit("O'Marchy");
    reveal_strlit("Omachi");
    reveal_strlit("Omachy");
    reveal_strlit("Omaki");
    reveal_strlit("Omarchi");
    reveal_strlit("Omarchic");
    reveal_strlit("Omarchie");
    reveal_strlit("Omarkey");
    reveal_strlit("Omarky");
    reveal_strlit("Omarze");
    reveal_strlit("Way bar");
}

} // verus!
